//! The rows that an append adds to a metadata image.
use crate::append::FileFormat;
use crate::bytes::copy_range;
use crate::catalog::SnapshotRow;
use crate::error::{corrupt, ErrorView, RuntimeError};
use crate::hash::{Id, Sha256};
use crate::image::corrupt_view;
use crate::projection::{blob_view, SummaryEntry};
use crate::tables::{
    optional_sqlite_i64, sqlite_i64, ChangeRow, CommitRow, FileRecord, ImageRows, IntentRow,
    LiveRow, MetricRecord, RefRecord, SnapshotRecord, SummaryRow,
};
use crate::text::reads;
use vstd::prelude::*;

verus! {

#[derive(Debug)]
pub struct ImageMetric {
    pub field_id: u32,
    pub column_size_bytes: Option<u64>,
    pub value_count: Option<u64>,
    pub null_count: Option<u64>,
    pub nan_count: Option<u64>,
    pub distinct_count: Option<u64>,
    pub lower_bound_cbor: Option<Vec<u8>>,
    pub upper_bound_cbor: Option<Vec<u8>>,
    pub metadata_json: String,
}

#[derive(Debug)]
pub struct ImageFile {
    pub file_id: Id,
    pub uri: String,
    pub format: FileFormat,
    pub file_size_bytes: u64,
    pub record_count: u64,
    pub schema_id: u32,
    pub partition_spec_id: u32,
    pub sort_order_id: u32,
    pub partition_values_cbor: Vec<u8>,
    pub partition_hash: Sha256,
    pub content_sha256: Sha256,
    pub metrics: Vec<ImageMetric>,
    pub metadata_json: String,
}

/// An append, as far as its rows depend on it. Values are held in canonical text.
#[derive(Debug)]
pub struct AppendImage {
    pub table_version: u64,
    pub created_at_ms: i64,
    pub semantic_state: Sha256,
    pub commit_id: Id,
    pub commit_hash: Sha256,
    pub commit_uri: String,
    pub operation_json: String,
    pub result_json: String,
    pub commit_metadata_json: String,
    pub idempotency_key: String,
    pub intent_hash: Sha256,
    pub snapshot_id: Id,
    pub parent_snapshot_id: Option<Id>,
    pub target_ref: String,
    pub sequence_number: u64,
    pub summary_json: String,
    pub summary: Vec<SummaryEntry>,
    pub snapshot_metadata_json: String,
    pub files: Vec<ImageFile>,
}

/// A count as it is stored, where it fits.
pub open spec fn stored_count(row: Option<i64>, value: Option<u64>) -> bool {
    match value {
        None => row is None,
        Some(v) => v <= i64::MAX && row == Some(v as i64),
    }
}

pub open spec fn metric_row_from(row: MetricRecord, file: Id, metric: ImageMetric) -> bool {
    &&& row.file_id == file
    &&& row.field_id == metric.field_id
    &&& stored_count(row.column_size_bytes, metric.column_size_bytes)
    &&& stored_count(row.value_count, metric.value_count)
    &&& stored_count(row.null_count, metric.null_count)
    &&& stored_count(row.nan_count, metric.nan_count)
    &&& stored_count(row.distinct_count, metric.distinct_count)
    &&& blob_view(row.lower_bound_cbor) == blob_view(metric.lower_bound_cbor)
    &&& blob_view(row.upper_bound_cbor) == blob_view(metric.upper_bound_cbor)
    &&& row.bloom_filter_uri is None
    &&& row.bloom_filter_sha256 is None
    &&& row.metadata_json@ == metric.metadata_json@
}

pub open spec fn file_row_from(row: FileRecord, file: ImageFile, input: AppendImage) -> bool {
    &&& row.file_id == file.file_id
    &&& row.file_kind@ == "data"@
    &&& row.uri@ == file.uri@
    &&& row.object_identity is None
    &&& row.file_format@ == file.format.spec_text()
    &&& row.file_size_bytes == file.file_size_bytes
    &&& row.record_count == file.record_count
    &&& row.schema_id == file.schema_id
    &&& row.partition_spec_id == file.partition_spec_id
    &&& row.sort_order_id == Some(file.sort_order_id as i64)
    &&& row.partition_values_cbor@ == file.partition_values_cbor@
    &&& row.partition_hash == file.partition_hash
    &&& row.content_sha256 == Some(file.content_sha256)
    &&& row.encryption_metadata is None
    &&& row.data_sequence_number == input.sequence_number
    &&& row.file_sequence_number == input.sequence_number
    &&& row.created_snapshot_id == input.snapshot_id
    &&& row.created_version == input.table_version
    &&& row.metadata_json@ == file.metadata_json@
}

pub open spec fn snapshot_row_from(row: SnapshotRecord, schema: i64, input: AppendImage) -> bool {
    &&& row.row.snapshot_id == input.snapshot_id
    &&& row.row.parent_snapshot_id == input.parent_snapshot_id
    &&& row.row.sequence_number == input.sequence_number
    &&& row.schema_id == schema
    &&& row.partition_spec_id == 0
    &&& row.sort_order_id == 0
    &&& row.operation@ == "append"@
    &&& row.committed_table_version == input.table_version
    &&& row.committed_at_ms == input.created_at_ms
    &&& row.scan_root_uri is None
    &&& row.scan_root_sha256 is None
    &&& row.summary_json@ == input.summary_json@
    &&& row.metadata_json@ == input.snapshot_metadata_json@
}

pub open spec fn commit_row_from(row: CommitRow, input: AppendImage) -> bool {
    &&& row.table_version == input.table_version
    &&& row.commit_id == input.commit_id
    &&& row.parent_table_version == Some((input.table_version - 1) as i64)
    &&& row.created_at_ms == input.created_at_ms
    &&& row.intent_count == 1
    &&& row.semantic_state == input.semantic_state
    &&& row.uri@ == input.commit_uri@
    &&& row.sha256 == input.commit_hash
    &&& row.operation_json@ == input.operation_json@
    &&& row.result_json@ == input.result_json@
    &&& row.metadata_json@ == input.commit_metadata_json@
}

pub open spec fn intent_row_from(row: IntentRow, input: AppendImage) -> bool {
    &&& row.key@ == input.idempotency_key@
    &&& row.intent == input.intent_hash
    &&& row.commit_id == input.commit_id
    &&& row.table_version == input.table_version
    &&& row.result_json@ == input.result_json@
}

pub open spec fn change_row_from(row: ChangeRow, file: ImageFile, input: AppendImage) -> bool {
    row.snapshot_id == input.snapshot_id && row.file_id == file.file_id && row.change_kind@
        == "add"@
}

pub open spec fn live_row_from(row: LiveRow, file: ImageFile, input: AppendImage) -> bool {
    &&& row.ref_name@ == input.target_ref@
    &&& row.file_id == file.file_id
    &&& row.added_snapshot_id == input.snapshot_id
    &&& row.data_sequence_number == input.sequence_number
    &&& row.file_sequence_number == input.sequence_number
}

/// Whether the numbers of a file can be stored.
pub open spec fn counts_fit(metric: ImageMetric) -> Result<(), ErrorView> {
    if metric.column_size_bytes matches Some(n) && n > i64::MAX {
        Err(ErrorView::InvalidAppend("column size"@ + " exceeds SQLite INTEGER"@))
    } else if metric.value_count matches Some(n) && n > i64::MAX {
        Err(ErrorView::InvalidAppend("value count"@ + " exceeds SQLite INTEGER"@))
    } else if metric.null_count matches Some(n) && n > i64::MAX {
        Err(ErrorView::InvalidAppend("null count"@ + " exceeds SQLite INTEGER"@))
    } else if metric.nan_count matches Some(n) && n > i64::MAX {
        Err(ErrorView::InvalidAppend("nan count"@ + " exceeds SQLite INTEGER"@))
    } else if metric.distinct_count matches Some(n) && n > i64::MAX {
        Err(ErrorView::InvalidAppend("distinct count"@ + " exceeds SQLite INTEGER"@))
    } else {
        Ok(())
    }
}

pub open spec fn metrics_fit(metrics: Seq<ImageMetric>) -> Result<(), ErrorView>
    decreases metrics.len(),
{
    if metrics.len() == 0 {
        Ok(())
    } else {
        match metrics_fit(metrics.drop_last()) {
            Err(e) => Err(e),
            Ok(()) => counts_fit(metrics.last()),
        }
    }
}

pub open spec fn file_fits(file: ImageFile) -> Result<(), ErrorView> {
    if file.file_size_bytes > i64::MAX {
        Err(ErrorView::InvalidAppend("file size"@ + " exceeds SQLite INTEGER"@))
    } else if file.record_count > i64::MAX {
        Err(ErrorView::InvalidAppend("record count"@ + " exceeds SQLite INTEGER"@))
    } else {
        metrics_fit(file.metrics@)
    }
}

pub open spec fn files_fit(files: Seq<ImageFile>) -> Result<(), ErrorView>
    decreases files.len(),
{
    if files.len() == 0 {
        Ok(())
    } else {
        match files_fit(files.drop_last()) {
            Err(e) => Err(e),
            Ok(()) => file_fits(files.last()),
        }
    }
}

/// How many branches have a name.
pub open spec fn branches(refs: Seq<RefRecord>, name: Seq<char>) -> nat
    decreases refs.len(),
{
    if refs.len() == 0 {
        0
    } else {
        branches(refs.drop_last(), name) + (if refs.last().name@ == name && refs.last().ref_type@
            == "branch"@ {
            1nat
        } else {
            0nat
        })
    }
}

/// Whether an append can be added to an image.
pub open spec fn append_check(rows: ImageRows, input: AppendImage) -> Result<(), ErrorView> {
    if rows.meta.table_version + 1 != input.table_version || rows.meta.table_version == i64::MAX {
        Err(corrupt_view("candidate parent version mismatch"@))
    } else if input.sequence_number > i64::MAX {
        Err(ErrorView::InvalidAppend("sequence number"@ + " exceeds SQLite INTEGER"@))
    } else if files_fit(input.files@) is Err {
        files_fit(input.files@)
    } else if branches(rows.refs@, input.target_ref@) != 1 {
        Err(corrupt_view("candidate parent has no unique main branch"@))
    } else {
        Ok(())
    }
}

/// The ref after the append: a branch with the target's name moves.
pub open spec fn moved_ref(after: RefRecord, before: RefRecord, input: AppendImage) -> bool {
    if before.name@ == input.target_ref@ && before.ref_type@ == "branch"@ {
        &&& after.name == before.name
        &&& after.ref_type == before.ref_type
        &&& after.created_version == before.created_version
        &&& after.snapshot_id == Some(input.snapshot_id)
        &&& after.updated_version == input.table_version
    } else {
        after == before
    }
}

/// The metric rows of the files, file by file.
pub open spec fn file_metrics(files: Seq<ImageFile>) -> Seq<(Id, ImageMetric)>
    decreases files.len(),
{
    if files.len() == 0 {
        Seq::empty()
    } else {
        file_metrics(files.drop_last()) + Seq::new(
            files.last().metrics@.len(),
            |i: int| (files.last().file_id, files.last().metrics@[i]),
        )
    }
}

/// The image after an append: one new snapshot, commit and intent, the rows of
/// the files and the summary, and the branch moved to the snapshot. Nothing that
/// was there is changed but the branch and the table's own row.
pub open spec fn appended(after: ImageRows, before: ImageRows, input: AppendImage) -> bool {
    let n = input.files@.len();
    &&& after.snapshots@.len() == before.snapshots@.len() + 1
    &&& after.snapshots@.take(before.snapshots@.len() as int) == before.snapshots@
    &&& snapshot_row_from(after.snapshots@.last(), before.meta.current_schema_id, input)
    &&& after.summaries@.len() == before.summaries@.len() + input.summary@.len()
    &&& after.summaries@.take(before.summaries@.len() as int) == before.summaries@
    &&& forall|i: int|
        0 <= i < input.summary@.len() ==> {
            let row = #[trigger] after.summaries@[before.summaries@.len() + i];
            row.snapshot_id == input.snapshot_id && row.key@ == input.summary@[i].key@
                && row.value_json@ == input.summary@[i].value_json@
        }
    &&& after.files@.len() == before.files@.len() + n
    &&& after.files@.take(before.files@.len() as int) == before.files@
    &&& forall|i: int|
        0 <= i < n ==> file_row_from(
            #[trigger] after.files@[before.files@.len() + i],
            input.files@[i],
            input,
        )
    &&& after.changes@.len() == before.changes@.len() + n
    &&& after.changes@.take(before.changes@.len() as int) == before.changes@
    &&& forall|i: int|
        0 <= i < n ==> change_row_from(
            #[trigger] after.changes@[before.changes@.len() + i],
            input.files@[i],
            input,
        )
    &&& after.live@.len() == before.live@.len() + n
    &&& after.live@.take(before.live@.len() as int) == before.live@
    &&& forall|i: int|
        0 <= i < n ==> live_row_from(
            #[trigger] after.live@[before.live@.len() + i],
            input.files@[i],
            input,
        )
    &&& metrics_added(after.metrics@, before.metrics@, file_metrics(input.files@))
    &&& after.commits@.len() == before.commits@.len() + 1
    &&& after.commits@.take(before.commits@.len() as int) == before.commits@
    &&& commit_row_from(after.commits@.last(), input)
    &&& after.intents@.len() == before.intents@.len() + 1
    &&& after.intents@.take(before.intents@.len() as int) == before.intents@
    &&& intent_row_from(after.intents@.last(), input)
    &&& after.refs@.len() == before.refs@.len()
    &&& forall|i: int|
        0 <= i < before.refs@.len() ==> moved_ref(
            #[trigger] after.refs@[i],
            before.refs@[i],
            input,
        )
    &&& after.meta.table_version == input.table_version
    &&& after.meta.semantic_state == input.semantic_state
    &&& after.meta.last_commit_id == input.commit_id
    &&& after.meta.last_commit_sha256 == input.commit_hash
    &&& after.meta.last_sequence_number == input.sequence_number
    &&& after.meta.table_id == before.meta.table_id
    &&& after.meta.protocol == before.meta.protocol
    &&& after.meta.protocol_version == before.meta.protocol_version
    &&& after.meta.current_schema_id == before.meta.current_schema_id
    &&& after.meta.default_partition_spec_id == before.meta.default_partition_spec_id
    &&& after.meta.default_sort_order_id == before.meta.default_sort_order_id
    &&& after.meta.reader_features_json == before.meta.reader_features_json
    &&& after.meta.writer_features_json == before.meta.writer_features_json
    &&& after.schemas == before.schemas
    &&& after.partition_specs == before.partition_specs
    &&& after.sort_orders == before.sort_orders
    &&& after.features == before.features
}

pub open spec fn metrics_added(
    after: Seq<MetricRecord>,
    before: Seq<MetricRecord>,
    metrics: Seq<(Id, ImageMetric)>,
) -> bool {
    &&& after.len() == before.len() + metrics.len()
    &&& after.take(before.len() as int) == before
    &&& forall|i: int|
        0 <= i < metrics.len() ==> metric_row_from(
            #[trigger] after[before.len() + i],
            metrics[i].0,
            metrics[i].1,
        )
}

fn copy_blob(blob: &Option<Vec<u8>>) -> (copy: Option<Vec<u8>>)
    ensures
        blob_view(copy) == blob_view(*blob),
{
    match blob {
        None => None,
        Some(bytes) => {
            let copy = copy_range(bytes.as_slice(), 0, bytes.len());
            assert(bytes@.subrange(0, bytes@.len() as int) =~= bytes@);
            Some(copy)
        },
    }
}

/// The row of one metric.
fn metric_row(file: Id, metric: &ImageMetric) -> (r: Result<MetricRecord, RuntimeError>)
    ensures
        match r {
            Ok(row) => counts_fit(*metric) is Ok && metric_row_from(row, file, *metric),
            Err(e) => counts_fit(*metric) == Err::<(), ErrorView>(e@),
        },
{
    let column_size_bytes: Option<i64> = match optional_sqlite_i64(
        metric.column_size_bytes,
        "column size",
    ) {
        Err(e) => {
            return Err(e);
        },
        Ok(n) => n,
    };
    let value_count: Option<i64> = match optional_sqlite_i64(metric.value_count, "value count") {
        Err(e) => {
            return Err(e);
        },
        Ok(n) => n,
    };
    let null_count: Option<i64> = match optional_sqlite_i64(metric.null_count, "null count") {
        Err(e) => {
            return Err(e);
        },
        Ok(n) => n,
    };
    let nan_count: Option<i64> = match optional_sqlite_i64(metric.nan_count, "nan count") {
        Err(e) => {
            return Err(e);
        },
        Ok(n) => n,
    };
    let distinct_count: Option<i64> = match optional_sqlite_i64(
        metric.distinct_count,
        "distinct count",
    ) {
        Err(e) => {
            return Err(e);
        },
        Ok(n) => n,
    };
    Ok(
        MetricRecord {
            file_id: file,
            field_id: metric.field_id as i64,
            column_size_bytes,
            value_count,
            null_count,
            nan_count,
            distinct_count,
            lower_bound_cbor: copy_blob(&metric.lower_bound_cbor),
            upper_bound_cbor: copy_blob(&metric.upper_bound_cbor),
            bloom_filter_uri: None,
            bloom_filter_sha256: None,
            metadata_json: metric.metadata_json.clone(),
        },
    )
}

proof fn lemma_metrics_fit_stop(metrics: Seq<ImageMetric>, n: int)
    requires
        0 <= n <= metrics.len(),
        metrics_fit(metrics.take(n)) is Err,
    ensures
        metrics_fit(metrics) == metrics_fit(metrics.take(n)),
    decreases metrics.len(),
{
    if n < metrics.len() {
        assert(metrics.drop_last().take(n) =~= metrics.take(n));
        lemma_metrics_fit_stop(metrics.drop_last(), n);
    } else {
        assert(metrics.take(n) =~= metrics);
    }
}

proof fn lemma_files_fit_stop(files: Seq<ImageFile>, n: int)
    requires
        0 <= n <= files.len(),
        files_fit(files.take(n)) is Err,
    ensures
        files_fit(files) == files_fit(files.take(n)),
    decreases files.len(),
{
    if n < files.len() {
        assert(files.drop_last().take(n) =~= files.take(n));
        lemma_files_fit_stop(files.drop_last(), n);
    } else {
        assert(files.take(n) =~= files);
    }
}

/// Adds the metric rows of one file.
fn add_metrics(rows: &mut Vec<MetricRecord>, file: &ImageFile) -> (r: Result<(), RuntimeError>)
    ensures
        match r {
            Ok(()) => {
                &&& metrics_fit(file.metrics@) is Ok
                &&& metrics_added(
                    final(rows)@,
                    old(rows)@,
                    Seq::new(file.metrics@.len(), |i: int| (file.file_id, file.metrics@[i])),
                )
            },
            Err(e) => metrics_fit(file.metrics@) == Err::<(), ErrorView>(e@),
        },
{
    let ghost before = rows@;
    let metrics = &file.metrics;
    let ghost all = Seq::new(
        file.metrics@.len(),
        |i: int| (file.file_id, file.metrics@[i]),
    );
    assert(metrics@.take(0) =~= Seq::<ImageMetric>::empty());
    assert(rows@.take(before.len() as int) =~= before);
    let mut i: usize = 0;
    while i < metrics.len()
        invariant
            i <= metrics@.len(),
            *metrics == file.metrics,
            before == old(rows)@,
            metrics_fit(metrics@.take(i as int)) is Ok,
            rows@.len() == before.len() + i,
            rows@.take(before.len() as int) == before,
            forall|k: int|
                0 <= k < i ==> metric_row_from(
                    #[trigger] rows@[before.len() + k],
                    file.file_id,
                    metrics@[k],
                ),
        decreases metrics@.len() - i,
    {
        let ghost mid = rows@;
        proof {
            assert(metrics@.take(i + 1).drop_last() =~= metrics@.take(i as int));
            if metrics_fit(metrics@.take(i + 1)) is Err {
                lemma_metrics_fit_stop(metrics@, i + 1);
            }
        }
        match metric_row(file.file_id, &metrics[i]) {
            Err(e) => {
                return Err(e);
            },
            Ok(row) => {
                rows.push(row);
            },
        }
        proof {
            assert(rows@.take(before.len() as int) =~= mid.take(before.len() as int));
            assert forall|k: int| 0 <= k < i + 1 implies metric_row_from(
                #[trigger] rows@[before.len() + k],
                file.file_id,
                metrics@[k],
            ) by {
                if k < i {
                    assert(rows@[before.len() + k] == mid[before.len() + k]);
                }
            }
        }
        i = i + 1;
    }
    proof {
        assert(metrics@.take(i as int) =~= metrics@);
        assert forall|k: int| 0 <= k < all.len() implies metric_row_from(
            #[trigger] rows@[before.len() + k],
            all[k].0,
            all[k].1,
        ) by {
            assert(metric_row_from(rows@[before.len() + k], file.file_id, metrics@[k]));
        }
    }
    Ok(())
}

proof fn lemma_metrics_added_join(
    after: Seq<MetricRecord>,
    middle: Seq<MetricRecord>,
    before: Seq<MetricRecord>,
    a: Seq<(Id, ImageMetric)>,
    b: Seq<(Id, ImageMetric)>,
)
    requires
        metrics_added(middle, before, a),
        metrics_added(after, middle, b),
    ensures
        metrics_added(after, before, a + b),
{
    assert(after.take(before.len() as int) =~= middle.take(before.len() as int));
    assert forall|i: int| 0 <= i < (a + b).len() implies metric_row_from(
        #[trigger] after[before.len() + i],
        (a + b)[i].0,
        (a + b)[i].1,
    ) by {
        if i < a.len() {
            assert(after[before.len() + i] == after.take(middle.len() as int)[before.len() + i]);
            assert(metric_row_from(middle[before.len() + i], a[i].0, a[i].1));
        } else {
            assert(metric_row_from(after[middle.len() + (i - a.len())], b[i - a.len()].0, b[i
                - a.len()].1));
        }
    }
}

/// Rows added behind others, one for each file.
spec fn grown<T>(after: Seq<T>, before: Seq<T>, n: int) -> bool {
    after.len() == before.len() + n && after.take(before.len() as int) == before
}

proof fn lemma_grown_push<T>(after: Seq<T>, before: Seq<T>, n: int, x: T)
    requires
        grown(after, before, n),
        n >= 0,
    ensures
        grown(after.push(x), before, n + 1),
        after.push(x)[before.len() + n] == x,
{
    assert(after.push(x).take(before.len() as int) =~= after.take(before.len() as int));
}

fn count_branches(refs: &Vec<RefRecord>, name: &String) -> (count: usize)
    ensures
        count == branches(refs@, name@),
{
    let mut count: usize = 0;
    let mut i: usize = 0;
    assert(refs@.take(0) =~= Seq::<RefRecord>::empty());
    while i < refs.len()
        invariant
            i <= refs@.len(),
            count <= i,
            count == branches(refs@.take(i as int), name@),
        decreases refs@.len() - i,
    {
        assert(refs@.take(i + 1).drop_last() =~= refs@.take(i as int));
        if refs[i].name == *name && reads(&refs[i].ref_type, "branch") {
            count = count + 1;
        }
        i = i + 1;
    }
    assert(refs@.take(i as int) =~= refs@);
    count
}

spec fn file_rows_added(
    files: Seq<FileRecord>,
    changes: Seq<ChangeRow>,
    live: Seq<LiveRow>,
    rows: ImageRows,
    input: AppendImage,
    n: int,
) -> bool {
    &&& grown(files, rows.files@, n)
    &&& grown(changes, rows.changes@, n)
    &&& grown(live, rows.live@, n)
    &&& forall|i: int|
        0 <= i < n ==> file_row_from(
            #[trigger] files[rows.files@.len() + i],
            input.files@[i],
            input,
        )
    &&& forall|i: int|
        0 <= i < n ==> change_row_from(
            #[trigger] changes[rows.changes@.len() + i],
            input.files@[i],
            input,
        )
    &&& forall|i: int|
        0 <= i < n ==> live_row_from(
            #[trigger] live[rows.live@.len() + i],
            input.files@[i],
            input,
        )
}

/// Adds an append to an image. An image that cannot take it is given up. The
/// constraints that an image declares for its tables are part of the image: its
/// SQL engine holds the rows to them when they are written.
pub fn apply_append(rows: ImageRows, input: &AppendImage) -> (r: Result<ImageRows, RuntimeError>)
    ensures
        match r {
            Ok(after) => append_check(rows, *input) is Ok && appended(after, rows, *input),
            Err(e) => append_check(rows, *input) == Err::<(), ErrorView>(e@),
        },
{
    let mut after = rows;
    match add_append(&mut after, input) {
        Err(e) => Err(e),
        Ok(()) => Ok(after),
    }
}

/// Adds the rows of an append.
fn add_append(rows: &mut ImageRows, input: &AppendImage) -> (r: Result<(), RuntimeError>)
    ensures
        match r {
            Ok(()) => append_check(*old(rows), *input) is Ok && appended(
                *final(rows),
                *old(rows),
                *input,
            ),
            Err(e) => append_check(*old(rows), *input) == Err::<(), ErrorView>(e@),
        },
{
    let ghost start = *rows;
    let parent: i64 = rows.meta.table_version;
    if parent == i64::MAX || parent < -1 || (parent + 1) as u64 != input.table_version {
        return Err(corrupt("candidate parent version mismatch"));
    }
    let version: i64 = parent + 1;
    let sequence: i64 = match sqlite_i64(input.sequence_number, "sequence number") {
        Err(e) => {
            return Err(e);
        },
        Ok(n) => n,
    };
    let files = &input.files;
    proof {
        assert(files@.take(0) =~= Seq::<ImageFile>::empty());
        assert(rows.files@.take(start.files@.len() as int) =~= start.files@);
        assert(rows.changes@.take(start.changes@.len() as int) =~= start.changes@);
        assert(rows.live@.take(start.live@.len() as int) =~= start.live@);
        assert(rows.metrics@.take(start.metrics@.len() as int) =~= start.metrics@);
        assert(metrics_added(rows.metrics@, start.metrics@, file_metrics(files@.take(0))));
    }
    let mut i: usize = 0;
    while i < files.len()
        invariant
            i <= files@.len(),
            *files == input.files,
            start == *old(rows),
            start.meta.table_version + 1 == input.table_version,
            start.meta.table_version < i64::MAX,
            version == input.table_version,
            sequence == input.sequence_number,
            input.sequence_number <= i64::MAX,
            files_fit(files@.take(i as int)) is Ok,
            file_rows_added(rows.files@, rows.changes@, rows.live@, start, *input, i as int),
            metrics_added(rows.metrics@, start.metrics@, file_metrics(files@.take(i as int))),
            rows.meta == start.meta,
            rows.snapshots == start.snapshots,
            rows.summaries == start.summaries,
            rows.commits == start.commits,
            rows.intents == start.intents,
            rows.refs == start.refs,
            rows.schemas == start.schemas,
            rows.partition_specs == start.partition_specs,
            rows.sort_orders == start.sort_orders,
            rows.features == start.features,
        decreases files@.len() - i,
    {
        let file = &files[i];
        proof {
            assert(files@.take(i + 1).drop_last() =~= files@.take(i as int));
            if files_fit(files@.take(i + 1)) is Err {
                lemma_files_fit_stop(files@, i + 1);
            }
        }
        let file_size_bytes: i64 = match sqlite_i64(file.file_size_bytes, "file size") {
            Err(e) => {
                return Err(e);
            },
            Ok(n) => n,
        };
        let record_count: i64 = match sqlite_i64(file.record_count, "record count") {
            Err(e) => {
                return Err(e);
            },
            Ok(n) => n,
        };
        let ghost middle = rows.metrics@;
        match add_metrics(&mut rows.metrics, file) {
            Err(e) => {
                return Err(e);
            },
            Ok(()) => {},
        }
        proof {
            lemma_metrics_added_join(
                rows.metrics@,
                middle,
                start.metrics@,
                file_metrics(files@.take(i as int)),
                Seq::new(file.metrics@.len(), |k: int| (file.file_id, file.metrics@[k])),
            );
        }
        let record = FileRecord {
            file_id: file.file_id,
            file_kind: "data".to_owned(),
            uri: file.uri.clone(),
            object_identity: None,
            file_format: file.format.as_str().to_owned(),
            file_size_bytes,
            record_count,
            schema_id: file.schema_id as i64,
            partition_spec_id: file.partition_spec_id as i64,
            sort_order_id: Some(file.sort_order_id as i64),
            partition_values_cbor: copy_range(
                file.partition_values_cbor.as_slice(),
                0,
                file.partition_values_cbor.len(),
            ),
            partition_hash: file.partition_hash,
            content_sha256: Some(file.content_sha256),
            encryption_metadata: None,
            data_sequence_number: sequence,
            file_sequence_number: sequence,
            created_snapshot_id: input.snapshot_id,
            created_version: version,
            metadata_json: file.metadata_json.clone(),
        };
        let change = ChangeRow {
            snapshot_id: input.snapshot_id,
            file_id: file.file_id,
            change_kind: "add".to_owned(),
        };
        let live = LiveRow {
            ref_name: input.target_ref.clone(),
            file_id: file.file_id,
            added_snapshot_id: input.snapshot_id,
            data_sequence_number: sequence,
            file_sequence_number: sequence,
        };
        let ghost f = rows.files@;
        let ghost c = rows.changes@;
        let ghost l = rows.live@;
        proof {
            assert(file.partition_values_cbor@.subrange(
                0,
                file.partition_values_cbor@.len() as int,
            ) =~= file.partition_values_cbor@);
            lemma_grown_push(f, start.files@, i as int, record);
            lemma_grown_push(c, start.changes@, i as int, change);
            lemma_grown_push(l, start.live@, i as int, live);
        }
        rows.files.push(record);
        rows.changes.push(change);
        rows.live.push(live);
        proof {
            assert forall|k: int| 0 <= k < i + 1 implies file_row_from(
                #[trigger] rows.files@[start.files@.len() + k],
                input.files@[k],
                *input,
            ) by {
                if k < i {
                    assert(rows.files@[start.files@.len() + k] == f[start.files@.len() + k]);
                }
            }
            assert forall|k: int| 0 <= k < i + 1 implies change_row_from(
                #[trigger] rows.changes@[start.changes@.len() + k],
                input.files@[k],
                *input,
            ) by {
                if k < i {
                    assert(rows.changes@[start.changes@.len() + k] == c[start.changes@.len() + k]);
                }
            }
            assert forall|k: int| 0 <= k < i + 1 implies live_row_from(
                #[trigger] rows.live@[start.live@.len() + k],
                input.files@[k],
                *input,
            ) by {
                if k < i {
                    assert(rows.live@[start.live@.len() + k] == l[start.live@.len() + k]);
                }
            }
        }
        i = i + 1;
    }
    assert(files@.take(i as int) =~= files@);
    if count_branches(&rows.refs, &input.target_ref) != 1 {
        return Err(corrupt("candidate parent has no unique main branch"));
    }
    let mut j: usize = 0;
    while j < rows.refs.len()
        invariant
            j <= rows.refs@.len(),
            start == *old(rows),
            version == input.table_version,
            rows.refs@.len() == start.refs@.len(),
            forall|k: int|
                0 <= k < j ==> moved_ref(#[trigger] rows.refs@[k], start.refs@[k], *input),
            forall|k: int|
                j <= k < start.refs@.len() ==> #[trigger] rows.refs@[k] == start.refs@[k],
            file_rows_added(
                rows.files@,
                rows.changes@,
                rows.live@,
                start,
                *input,
                input.files@.len() as int,
            ),
            metrics_added(rows.metrics@, start.metrics@, file_metrics(input.files@)),
            rows.meta == start.meta,
            rows.snapshots == start.snapshots,
            rows.summaries == start.summaries,
            rows.commits == start.commits,
            rows.intents == start.intents,
            rows.schemas == start.schemas,
            rows.partition_specs == start.partition_specs,
            rows.sort_orders == start.sort_orders,
            rows.features == start.features,
        decreases rows.refs@.len() - j,
    {
        if rows.refs[j].name == input.target_ref && reads(&rows.refs[j].ref_type, "branch") {
            let ghost before = rows.refs@;
            let moved = RefRecord {
                name: rows.refs[j].name.clone(),
                ref_type: rows.refs[j].ref_type.clone(),
                snapshot_id: Some(input.snapshot_id),
                created_version: rows.refs[j].created_version,
                updated_version: version,
            };
            rows.refs.set(j, moved);
            assert(rows.refs@ =~= before.update(j as int, moved));
        }
        j = j + 1;
    }
    let mut n: usize = 0;
    assert(rows.summaries@.take(start.summaries@.len() as int) =~= start.summaries@);
    while n < input.summary.len()
        invariant
            n <= input.summary@.len(),
            start == *old(rows),
            rows.refs@.len() == start.refs@.len(),
            forall|k: int|
                0 <= k < start.refs@.len() ==> moved_ref(
                    #[trigger] rows.refs@[k],
                    start.refs@[k],
                    *input,
                ),
            rows.summaries@.len() == start.summaries@.len() + n,
            rows.summaries@.take(start.summaries@.len() as int) == start.summaries@,
            forall|k: int|
                0 <= k < n ==> {
                    let row = #[trigger] rows.summaries@[start.summaries@.len() + k];
                    row.snapshot_id == input.snapshot_id && row.key@ == input.summary@[k].key@
                        && row.value_json@ == input.summary@[k].value_json@
                },
            file_rows_added(
                rows.files@,
                rows.changes@,
                rows.live@,
                start,
                *input,
                input.files@.len() as int,
            ),
            metrics_added(rows.metrics@, start.metrics@, file_metrics(input.files@)),
            rows.meta == start.meta,
            rows.snapshots == start.snapshots,
            rows.commits == start.commits,
            rows.intents == start.intents,
            rows.schemas == start.schemas,
            rows.partition_specs == start.partition_specs,
            rows.sort_orders == start.sort_orders,
            rows.features == start.features,
        decreases input.summary@.len() - n,
    {
        let ghost before = rows.summaries@;
        rows.summaries.push(
            SummaryRow {
                snapshot_id: input.snapshot_id,
                key: input.summary[n].key.clone(),
                value_json: input.summary[n].value_json.clone(),
            },
        );
        proof {
            assert(rows.summaries@.take(start.summaries@.len() as int) =~= before.take(
                start.summaries@.len() as int,
            ));
            assert forall|k: int| 0 <= k < n + 1 implies {
                let row = #[trigger] rows.summaries@[start.summaries@.len() + k];
                row.snapshot_id == input.snapshot_id && row.key@ == input.summary@[k].key@
                    && row.value_json@ == input.summary@[k].value_json@
            } by {
                if k < n {
                    assert(rows.summaries@[start.summaries@.len() + k] == before[
                        start.summaries@.len() + k
                    ]);
                }
            }
        }
        n = n + 1;
    }
    rows.snapshots.push(
        SnapshotRecord {
            row: SnapshotRow {
                snapshot_id: input.snapshot_id,
                parent_snapshot_id: input.parent_snapshot_id,
                sequence_number: sequence,
            },
            schema_id: rows.meta.current_schema_id,
            partition_spec_id: 0,
            sort_order_id: 0,
            operation: "append".to_owned(),
            committed_table_version: version,
            committed_at_ms: input.created_at_ms,
            scan_root_uri: None,
            scan_root_sha256: None,
            summary_json: input.summary_json.clone(),
            metadata_json: input.snapshot_metadata_json.clone(),
        },
    );
    rows.commits.push(
        CommitRow {
            table_version: version,
            commit_id: input.commit_id,
            parent_table_version: Some(version - 1),
            created_at_ms: input.created_at_ms,
            intent_count: 1,
            semantic_state: input.semantic_state,
            uri: input.commit_uri.clone(),
            sha256: input.commit_hash,
            operation_json: input.operation_json.clone(),
            result_json: input.result_json.clone(),
            metadata_json: input.commit_metadata_json.clone(),
        },
    );
    rows.intents.push(
        IntentRow {
            key: input.idempotency_key.clone(),
            intent: input.intent_hash,
            commit_id: input.commit_id,
            table_version: version,
            result_json: input.result_json.clone(),
        },
    );
    rows.meta.table_version = version;
    rows.meta.semantic_state = input.semantic_state;
    rows.meta.last_commit_id = input.commit_id;
    rows.meta.last_commit_sha256 = input.commit_hash;
    rows.meta.last_sequence_number = sequence;
    proof {
        assert(rows.snapshots@.take(start.snapshots@.len() as int) =~= start.snapshots@);
        assert(rows.commits@.take(start.commits@.len() as int) =~= start.commits@);
        assert(rows.intents@.take(start.intents@.len() as int) =~= start.intents@);
        assert(appended(*rows, start, *input));
    }
    Ok(())
}

} // verus!

//! Append requests: what they hold and when they are valid.
use crate::error::{ErrorView, ProtocolError, RuntimeError};
use crate::catalog::RefType;
use crate::hash::{Id, Sha256};
use crate::schema::{
    field_view, fields_view, kind_view, lemma_fields_view, Field, FieldView, KindView, TypeKind,
};
use crate::storage::ObjectVersion;
use crate::text::{append_decimal, ascending, decimal, reads};
use crate::value::{
    copy_members, keys_of, member_of, members_view, put_member, same_value, value_view,
    CanonicalValue, Member, ValueView, lemma_members_view,
};
use vstd::prelude::*;
use vstd::string::*;

verus! {

#[derive(Clone, Copy, Debug, PartialEq, Eq, Structural)]
pub enum FileFormat {
    Parquet,
}

impl FileFormat {
    pub open spec fn spec_text(self) -> Seq<char> {
        "parquet"@
    }

    pub fn as_str(self) -> (text: &'static str)
        ensures
            text@ == self.spec_text(),
    {
        "parquet"
    }
}

#[derive(Clone, Copy, Debug)]
pub struct SourceFingerprint {
    pub sha256: Sha256,
    pub length: u64,
}

/// A bound of a column, with what the protocol's scalar rules say of it.
#[derive(Debug)]
pub struct MetricBound {
    pub value: CanonicalValue,
    pub cbor: Vec<u8>,
    /// What is wrong with the scalar itself.
    pub problem: Option<ProtocolError>,
    /// Whether the field's type accepts it.
    pub accepted: bool,
    pub null: bool,
    pub nan: bool,
}

#[derive(Debug)]
pub struct FileMetric {
    pub field_id: u32,
    pub column_size_bytes: Option<u64>,
    pub value_count: Option<u64>,
    pub null_count: Option<u64>,
    pub nan_count: Option<u64>,
    pub distinct_count: Option<u64>,
    pub lower_bound: Option<MetricBound>,
    pub upper_bound: Option<MetricBound>,
    /// Whether the lower bound is above the upper one.
    pub reversed: bool,
    pub metadata: Vec<Member>,
}

#[derive(Debug)]
pub struct AppendFile {
    pub source_path: String,
    pub fingerprint: SourceFingerprint,
    pub format: FileFormat,
    pub record_count: u64,
    pub schema_id: u32,
    pub partition_spec_id: u32,
    pub sort_order_id: u32,
    pub partition_values: Vec<Member>,
    pub metrics: Vec<FileMetric>,
    pub metadata: Vec<Member>,
}

#[derive(Debug)]
pub struct AppendRequest {
    pub idempotency_key: String,
    pub target_ref: String,
    pub files: Vec<AppendFile>,
    pub summary: Vec<Member>,
    pub commit_metadata: Vec<Member>,
    pub snapshot_metadata: Vec<Member>,
}

impl AppendRequest {
    /// A request on `main` without a summary or metadata.
    pub fn new(idempotency_key: String, files: Vec<AppendFile>) -> (request: Self)
        ensures
            request.idempotency_key == idempotency_key,
            request.target_ref@ == "main"@,
            request.files == files,
            request.summary@.len() == 0,
            request.commit_metadata@.len() == 0,
            request.snapshot_metadata@.len() == 0,
    {
        AppendRequest {
            idempotency_key,
            target_ref: "main".to_owned(),
            files,
            summary: Vec::new(),
            commit_metadata: Vec::new(),
            snapshot_metadata: Vec::new(),
        }
    }
}

/// A data file that was stored and read back.
#[derive(Debug)]
pub struct VerifiedStagedFile {
    pub table_id: Id,
    pub ordinal: usize,
    pub file_id: Id,
    pub uri: String,
    pub version: ObjectVersion,
    pub sha256: Sha256,
    pub length: u64,
    pub format: FileFormat,
    pub object_identity: Option<String>,
}

impl VerifiedStagedFile {
    pub fn file_id(&self) -> (id: Id)
        ensures
            id == self.file_id,
    {
        self.file_id
    }

    pub fn uri(&self) -> (uri: &String)
        ensures
            *uri == self.uri,
    {
        &self.uri
    }
}

#[derive(Debug)]
pub struct CommittedFile {
    pub file_id: Id,
    pub uri: String,
}

#[derive(Debug)]
pub struct AppendResult {
    pub table_version: u64,
    pub commit_id: Id,
    pub snapshot_id: Id,
    pub sequence_number: u64,
    pub target_ref: String,
    pub files: Vec<CommittedFile>,
}

pub open spec fn invalid_append(message: Seq<char>) -> ErrorView {
    ErrorView::InvalidAppend(message)
}

pub(crate) fn bad_append(message: &str) -> (e: RuntimeError)
    ensures
        e@ == invalid_append(message@),
{
    RuntimeError::InvalidAppend(message.to_owned())
}

/// The kind of the field with that identifier, among the fields and all below
/// them. A later field hides an earlier one.
pub open spec fn kind_in(fields: Seq<FieldView>, id: u32) -> Option<KindView>
    decreases fields,
{
    if fields.len() == 0 {
        None
    } else {
        match kind_of(fields.last(), id) {
            Some(kind) => Some(kind),
            None => kind_in(fields.drop_last(), id),
        }
    }
}

pub open spec fn kind_of(field: FieldView, id: u32) -> Option<KindView>
    decreases field,
{
    match kind_in(field.children, id) {
        Some(kind) => Some(kind),
        None => if field.field_id == id {
            Some(field.kind)
        } else {
            None
        },
    }
}

/// Finds the kind of a field.
pub fn find_kind<'a>(fields: &'a Vec<Field>, id: u32) -> (found: Option<&'a TypeKind>)
    ensures
        match found {
            Some(kind) => kind_in(fields_view(fields@), id) == Some(kind_view(*kind)),
            None => kind_in(fields_view(fields@), id) is None,
        },
    decreases fields@,
{
    let ghost all = fields_view(fields@);
    proof {
        lemma_fields_view(fields@);
        assert(all.take(all.len() as int) =~= all);
    }
    let mut n: usize = fields.len();
    while n > 0
        invariant
            n <= fields@.len(),
            all == fields_view(fields@),
            all.len() == fields@.len(),
            forall|k: int| 0 <= k < all.len() ==> #[trigger] all[k] == field_view(&fields@[k]),
            kind_in(all, id) == kind_in(all.take(n as int), id),
        decreases n,
    {
        let field = &fields[n - 1];
        proof {
            reveal_with_fuel(kind_in, 2);
            reveal_with_fuel(kind_of, 2);
            assert(all.take(n as int).last() == field@);
            assert(all.take(n as int).drop_last() =~= all.take(n - 1));
            assert(decreases_to!(fields@ => fields@[n - 1]));
            assert(decreases_to!(fields@[n - 1] => fields@[n - 1].field_type));
            assert(decreases_to!(fields@[n - 1].field_type => fields@[n - 1].field_type.children));
            assert(decreases_to!(
                fields@[n - 1].field_type.children => fields@[n - 1].field_type.children@
            ));
        }
        match find_kind(&field.field_type.children, id) {
            Some(kind) => {
                return Some(kind);
            },
            None => {},
        }
        if field.field_id == id {
            return Some(&field.field_type.kind);
        }
        n = n - 1;
    }
    None
}

pub open spec fn above_sqlite(count: Option<u64>) -> bool {
    count matches Some(n) && n > i64::MAX
}

pub open spec fn bound_check(bound: Option<MetricBound>) -> Result<(), ErrorView> {
    match bound {
        None => Ok(()),
        Some(bound) => match bound.problem {
            Some(problem) => Err(ErrorView::Protocol(problem.code@, problem.message@)),
            None => if !bound.accepted || bound.null || bound.nan {
                Err(invalid_append("invalid metric bound"@))
            } else {
                Ok(())
            },
        },
    }
}

/// Whether one metric is valid for the table's fields.
pub open spec fn metric_check(metric: FileMetric, fields: Seq<FieldView>) -> Result<(), ErrorView> {
    match kind_in(fields, metric.field_id) {
        None => Err(invalid_append("metric field ID does not exist"@)),
        Some(kind) => if !(kind is Primitive) {
            Err(invalid_append("metrics require primitive fields"@))
        } else if (metric.null_count is Some && metric.value_count is Some && metric.null_count->0
            > metric.value_count->0) || (metric.nan_count is Some && !(kind
            matches KindView::Primitive(_, float) && float)) {
            Err(invalid_append("invalid metric counts"@))
        } else if above_sqlite(metric.column_size_bytes) || above_sqlite(metric.value_count)
            || above_sqlite(metric.null_count) || above_sqlite(metric.nan_count) || above_sqlite(
            metric.distinct_count,
        ) {
            Err(invalid_append("metric count exceeds SQLite INTEGER"@))
        } else if bound_check(metric.lower_bound) is Err {
            bound_check(metric.lower_bound)
        } else if bound_check(metric.upper_bound) is Err {
            bound_check(metric.upper_bound)
        } else if metric.lower_bound is Some && metric.upper_bound is Some && metric.reversed {
            Err(invalid_append("metric bounds are reversed"@))
        } else {
            Ok(())
        },
    }
}

pub open spec fn measures(metrics: Seq<FileMetric>, id: u32) -> bool {
    exists|i: int| 0 <= i < metrics.len() && (#[trigger] metrics[i]).field_id == id
}

/// The metrics in their order: the first that repeats a field or is invalid
/// decides.
pub open spec fn metrics_check(metrics: Seq<FileMetric>, fields: Seq<FieldView>) -> Result<
    (),
    ErrorView,
>
    decreases metrics.len(),
{
    if metrics.len() == 0 {
        Ok(())
    } else {
        match metrics_check(metrics.drop_last(), fields) {
            Err(e) => Err(e),
            Ok(()) => if measures(metrics.drop_last(), metrics.last().field_id) {
                Err(invalid_append("duplicate metric field ID"@))
            } else {
                metric_check(metrics.last(), fields)
            },
        }
    }
}

proof fn lemma_metrics_stop(metrics: Seq<FileMetric>, fields: Seq<FieldView>, n: int)
    requires
        0 <= n <= metrics.len(),
        metrics_check(metrics.take(n), fields) is Err,
    ensures
        metrics_check(metrics, fields) == metrics_check(metrics.take(n), fields),
    decreases metrics.len(),
{
    if n < metrics.len() {
        assert(metrics.drop_last().take(n) =~= metrics.take(n));
        lemma_metrics_stop(metrics.drop_last(), fields, n);
    } else {
        assert(metrics.take(n) =~= metrics);
    }
}

fn exceeds(count: Option<u64>) -> (exceeds: bool)
    ensures
        exceeds == above_sqlite(count),
{
    match count {
        Some(n) => n > i64::MAX as u64,
        None => false,
    }
}

fn check_bound(bound: &Option<MetricBound>) -> (r: Result<(), RuntimeError>)
    ensures
        match r {
            Ok(()) => bound_check(*bound) is Ok,
            Err(e) => bound_check(*bound) == Err::<(), ErrorView>(e@),
        },
{
    match bound {
        None => Ok(()),
        Some(bound) => match &bound.problem {
            Some(problem) => Err(
                RuntimeError::Protocol(
                    ProtocolError { code: problem.code.clone(), message: problem.message.clone() },
                ),
            ),
            None => if !bound.accepted || bound.null || bound.nan {
                Err(bad_append("invalid metric bound"))
            } else {
                Ok(())
            },
        },
    }
}

fn check_metric(metric: &FileMetric, fields: &Vec<Field>) -> (r: Result<(), RuntimeError>)
    ensures
        match r {
            Ok(()) => metric_check(*metric, fields_view(fields@)) is Ok,
            Err(e) => metric_check(*metric, fields_view(fields@)) == Err::<(), ErrorView>(e@),
        },
{
    let kind = match find_kind(fields, metric.field_id) {
        None => {
            return Err(bad_append("metric field ID does not exist"));
        },
        Some(kind) => kind,
    };
    if !kind.is_primitive() {
        return Err(bad_append("metrics require primitive fields"));
    }
    let more_nulls: bool = match (metric.null_count, metric.value_count) {
        (Some(nulls), Some(values)) => nulls > values,
        _ => false,
    };
    if more_nulls || (metric.nan_count.is_some() && !kind.is_float()) {
        return Err(bad_append("invalid metric counts"));
    }
    if exceeds(metric.column_size_bytes) || exceeds(metric.value_count) || exceeds(
        metric.null_count,
    ) || exceeds(metric.nan_count) || exceeds(metric.distinct_count) {
        return Err(bad_append("metric count exceeds SQLite INTEGER"));
    }
    match check_bound(&metric.lower_bound) {
        Err(e) => {
            return Err(e);
        },
        Ok(()) => {},
    }
    match check_bound(&metric.upper_bound) {
        Err(e) => {
            return Err(e);
        },
        Ok(()) => {},
    }
    if metric.lower_bound.is_some() && metric.upper_bound.is_some() && metric.reversed {
        return Err(bad_append("metric bounds are reversed"));
    }
    Ok(())
}

/// Checks the metrics of a file against the table's fields.
pub fn validate_metrics(metrics: &Vec<FileMetric>, fields: &Vec<Field>) -> (r: Result<
    (),
    RuntimeError,
>)
    ensures
        match r {
            Ok(()) => metrics_check(metrics@, fields_view(fields@)) is Ok,
            Err(e) => metrics_check(metrics@, fields_view(fields@)) == Err::<(), ErrorView>(e@),
        },
{
    let ghost all = fields_view(fields@);
    assert(metrics@.take(0) =~= Seq::<FileMetric>::empty());
    let mut i: usize = 0;
    while i < metrics.len()
        invariant
            i <= metrics@.len(),
            all == fields_view(fields@),
            metrics_check(metrics@.take(i as int), all) is Ok,
        decreases metrics@.len() - i,
    {
        let ghost before = metrics@.take(i as int);
        proof {
            assert(metrics@.take(i + 1).drop_last() =~= before);
            if metrics_check(metrics@.take(i + 1), all) is Err {
                lemma_metrics_stop(metrics@, all, i + 1);
            }
        }
        let mut j: usize = 0;
        while j < i
            invariant
                j <= i < metrics@.len(),
                before == metrics@.take(i as int),
                all == fields_view(fields@),
                metrics_check(before, all) is Ok,
                metrics@.take(i + 1).drop_last() == before,
                metrics_check(metrics@.take(i + 1), all) is Err ==> metrics_check(metrics@, all)
                    == metrics_check(metrics@.take(i + 1), all),
                forall|k: int|
                    0 <= k < j ==> (#[trigger] before[k]).field_id != metrics@[i as int].field_id,
            decreases i - j,
        {
            assert(before[j as int] == metrics@[j as int]);
            if metrics[j].field_id == metrics[i].field_id {
                assert(measures(before, metrics@[i as int].field_id));
                return Err(bad_append("duplicate metric field ID"));
            }
            j = j + 1;
        }
        assert(!measures(before, metrics@[i as int].field_id));
        match check_metric(&metrics[i], fields) {
            Err(e) => {
                return Err(e);
            },
            Ok(()) => {},
        }
        i = i + 1;
    }
    assert(metrics@.take(i as int) =~= metrics@);
    Ok(())
}

pub open spec fn bound_view(bound: Option<MetricBound>) -> Option<ValueView> {
    match bound {
        Some(bound) => Some(bound.value@),
        None => None,
    }
}

/// Metrics that say the same of a column.
pub open spec fn same_metric(a: FileMetric, b: FileMetric) -> bool {
    &&& a.field_id == b.field_id
    &&& a.column_size_bytes == b.column_size_bytes
    &&& a.value_count == b.value_count
    &&& a.null_count == b.null_count
    &&& a.nan_count == b.nan_count
    &&& a.distinct_count == b.distinct_count
    &&& bound_view(a.lower_bound) == bound_view(b.lower_bound)
    &&& bound_view(a.upper_bound) == bound_view(b.upper_bound)
    &&& members_view(a.metadata@) == members_view(b.metadata@)
}

/// Files that describe the same content in the same way. Where a file is read
/// from does not matter.
pub open spec fn same_entry(a: AppendFile, b: AppendFile) -> bool {
    &&& a.fingerprint.sha256 == b.fingerprint.sha256
    &&& a.fingerprint.length == b.fingerprint.length
    &&& a.format == b.format
    &&& a.record_count == b.record_count
    &&& a.schema_id == b.schema_id
    &&& a.partition_spec_id == b.partition_spec_id
    &&& a.sort_order_id == b.sort_order_id
    &&& members_view(a.partition_values@) == members_view(b.partition_values@)
    &&& a.metrics@.len() == b.metrics@.len()
    &&& forall|i: int|
        0 <= i < a.metrics@.len() ==> same_metric(#[trigger] a.metrics@[i], b.metrics@[i])
    &&& members_view(a.metadata@) == members_view(b.metadata@)
}

fn same_members(a: &Vec<Member>, b: &Vec<Member>) -> (same: bool)
    ensures
        same == (members_view(a@) == members_view(b@)),
{
    let ghost x = members_view(a@);
    let ghost y = members_view(b@);
    proof {
        lemma_members_view(a@);
        lemma_members_view(b@);
    }
    if a.len() != b.len() {
        return false;
    }
    let mut i: usize = 0;
    while i < a.len()
        invariant
            i <= a@.len(),
            a@.len() == b@.len(),
            x == members_view(a@),
            y == members_view(b@),
            x.len() == a@.len(),
            y.len() == b@.len(),
            forall|k: int|
                0 <= k < a@.len() ==> #[trigger] x[k] == (a@[k].key@, value_view(&a@[k].value)),
            forall|k: int|
                0 <= k < b@.len() ==> #[trigger] y[k] == (b@[k].key@, value_view(&b@[k].value)),
            forall|k: int| 0 <= k < i ==> #[trigger] x[k] == y[k],
        decreases a@.len() - i,
    {
        if a[i].key != b[i].key || !same_value(&a[i].value, &b[i].value) {
            assert(x[i as int] != y[i as int]);
            return false;
        }
        assert(x[i as int] == y[i as int]);
        i = i + 1;
    }
    assert(x =~= y);
    true
}

fn same_bound(a: &Option<MetricBound>, b: &Option<MetricBound>) -> (same: bool)
    ensures
        same == (bound_view(*a) == bound_view(*b)),
{
    match (a, b) {
        (Some(a), Some(b)) => same_value(&a.value, &b.value),
        (None, None) => true,
        _ => false,
    }
}

fn same_count(a: Option<u64>, b: Option<u64>) -> (same: bool)
    ensures
        same == (a == b),
{
    match (a, b) {
        (Some(a), Some(b)) => a == b,
        (None, None) => true,
        _ => false,
    }
}

fn are_same_metric(a: &FileMetric, b: &FileMetric) -> (same: bool)
    ensures
        same == same_metric(*a, *b),
{
    a.field_id == b.field_id && same_count(a.column_size_bytes, b.column_size_bytes) && same_count(
        a.value_count,
        b.value_count,
    ) && same_count(a.null_count, b.null_count) && same_count(a.nan_count, b.nan_count)
        && same_count(a.distinct_count, b.distinct_count) && same_bound(
        &a.lower_bound,
        &b.lower_bound,
    ) && same_bound(&a.upper_bound, &b.upper_bound) && same_members(&a.metadata, &b.metadata)
}

pub fn are_same_entry(a: &AppendFile, b: &AppendFile) -> (same: bool)
    ensures
        same == same_entry(*a, *b),
{
    if a.fingerprint.sha256 != b.fingerprint.sha256 || a.fingerprint.length != b.fingerprint.length
        || a.format != b.format || a.record_count != b.record_count || a.schema_id != b.schema_id
        || a.partition_spec_id != b.partition_spec_id || a.sort_order_id != b.sort_order_id
        || !same_members(&a.partition_values, &b.partition_values) || a.metrics.len()
        != b.metrics.len() || !same_members(&a.metadata, &b.metadata) {
        return false;
    }
    let mut i: usize = 0;
    while i < a.metrics.len()
        invariant
            i <= a.metrics@.len(),
            a.metrics@.len() == b.metrics@.len(),
            forall|k: int|
                0 <= k < i ==> same_metric(#[trigger] a.metrics@[k], b.metrics@[k]),
        decreases a.metrics@.len() - i,
    {
        if !are_same_metric(&a.metrics[i], &b.metrics[i]) {
            assert(!same_metric(a.metrics@[i as int], b.metrics@[i as int]));
            return false;
        }
        i = i + 1;
    }
    true
}

/// A file that fits the defaults of a table whose current schema is given.
pub open spec fn fits_defaults(file: AppendFile, current_schema: u32) -> bool {
    &&& file.schema_id == current_schema
    &&& file.partition_spec_id == 0
    &&& file.sort_order_id == 0
    &&& file.partition_values@.len() == 0
    &&& file.fingerprint.length <= i64::MAX
    &&& file.record_count <= i64::MAX
}

pub open spec fn repeats(files: Seq<AppendFile>, file: AppendFile) -> bool {
    exists|i: int| 0 <= i < files.len() && same_entry(#[trigger] files[i], file)
}

/// The files in their order: the first that does not fit, repeats another or has
/// an invalid metric decides.
pub open spec fn files_check(
    files: Seq<AppendFile>,
    current_schema: u32,
    fields: Seq<FieldView>,
) -> Result<(), ErrorView>
    decreases files.len(),
{
    if files.len() == 0 {
        Ok(())
    } else {
        match files_check(files.drop_last(), current_schema, fields) {
            Err(e) => Err(e),
            Ok(()) => if !fits_defaults(files.last(), current_schema) {
                Err(
                    invalid_append(
                        "file assertions do not match local/full-image profile table defaults"@,
                    ),
                )
            } else if repeats(files.drop_last(), files.last()) {
                Err(invalid_append("duplicate logical file entry"@))
            } else {
                metrics_check(files.last().metrics@, fields)
            },
        }
    }
}

proof fn lemma_files_stop(
    files: Seq<AppendFile>,
    current_schema: u32,
    fields: Seq<FieldView>,
    n: int,
)
    requires
        0 <= n <= files.len(),
        files_check(files.take(n), current_schema, fields) is Err,
    ensures
        files_check(files, current_schema, fields) == files_check(
            files.take(n),
            current_schema,
            fields,
        ),
    decreases files.len(),
{
    if n < files.len() {
        assert(files.drop_last().take(n) =~= files.take(n));
        lemma_files_stop(files.drop_last(), current_schema, fields, n);
    } else {
        assert(files.take(n) =~= files);
    }
}

pub open spec fn reserved(key: Seq<char>) -> bool {
    key == "added-data-files"@ || key == "added-records"@ || key == "added-files-size"@
}

pub open spec fn uses_reserved(summary: Seq<Member>) -> bool {
    exists|i: int| 0 <= i < summary.len() && reserved((#[trigger] summary[i]).key@)
}

pub open spec fn total_records(files: Seq<AppendFile>) -> int
    decreases files.len(),
{
    if files.len() == 0 {
        0
    } else {
        total_records(files.drop_last()) + files.last().record_count
    }
}

pub open spec fn total_bytes(files: Seq<AppendFile>) -> int
    decreases files.len(),
{
    if files.len() == 0 {
        0
    } else {
        total_bytes(files.drop_last()) + files.last().fingerprint.length
    }
}

/// Whether the totals of a request can be stored.
pub open spec fn summary_check(files: Seq<AppendFile>) -> Result<(), ErrorView> {
    if total_records(files) > u64::MAX {
        Err(invalid_append("record count overflow"@))
    } else if total_bytes(files) > u64::MAX {
        Err(invalid_append("file size overflow"@))
    } else if total_records(files) > i64::MAX || total_bytes(files) > i64::MAX {
        Err(invalid_append("summary exceeds SQLite INTEGER"@))
    } else {
        Ok(())
    }
}

/// Whether a request is valid for a table whose current schema is given.
pub open spec fn request_check(
    request: AppendRequest,
    current_schema: u32,
    fields: Seq<FieldView>,
) -> Result<(), ErrorView> {
    if request.idempotency_key@.len() == 0 || request.idempotency_key@ == "otmp.genesis"@ {
        Err(invalid_append("invalid idempotency key"@))
    } else if request.files@.len() == 0 {
        Err(
            invalid_append(
                "local/full-image profile requires one non-empty append batch to main"@,
            ),
        )
    } else if uses_reserved(request.summary@) {
        Err(invalid_append("caller summary uses a runtime-reserved key"@))
    } else if files_check(request.files@, current_schema, fields) is Err {
        files_check(request.files@, current_schema, fields)
    } else {
        summary_check(request.files@)
    }
}

fn has_reserved(summary: &Vec<Member>) -> (found: bool)
    ensures
        found == uses_reserved(summary@),
{
    let mut i: usize = 0;
    while i < summary.len()
        invariant
            i <= summary@.len(),
            forall|k: int| 0 <= k < i ==> !reserved((#[trigger] summary@[k]).key@),
        decreases summary@.len() - i,
    {
        let key = &summary[i].key;
        if reads(key, "added-data-files") || reads(key, "added-records") || reads(
            key,
            "added-files-size",
        ) {
            assert(reserved(summary@[i as int].key@));
            return true;
        }
        i = i + 1;
    }
    false
}

proof fn lemma_totals_grow(files: Seq<AppendFile>, n: int)
    requires
        0 <= n <= files.len(),
    ensures
        0 <= total_records(files.take(n)) <= total_records(files),
        0 <= total_bytes(files.take(n)) <= total_bytes(files),
    decreases files.len(),
{
    if n < files.len() {
        assert(files.drop_last().take(n) =~= files.take(n));
        lemma_totals_grow(files.drop_last(), n);
    } else if files.len() > 0 {
        assert(files.take(n) =~= files);
        lemma_totals_grow(files.drop_last(), n - 1);
        assert(files.drop_last().take(n - 1) =~= files.drop_last());
    } else {
        assert(files.take(n) =~= files);
    }
}

/// The totals of the files: records and bytes.
pub fn totals(files: &Vec<AppendFile>) -> (r: Result<(u64, u64), RuntimeError>)
    ensures
        match r {
            Ok((records, bytes)) => {
                &&& summary_check(files@) is Ok
                &&& records == total_records(files@)
                &&& bytes == total_bytes(files@)
            },
            Err(e) => summary_check(files@) == Err::<(), ErrorView>(e@),
        },
{
    let mut records: u64 = 0;
    let mut i: usize = 0;
    assert(files@.take(0) =~= Seq::<AppendFile>::empty());
    while i < files.len()
        invariant
            i <= files@.len(),
            records == total_records(files@.take(i as int)),
        decreases files@.len() - i,
    {
        assert(files@.take(i + 1).drop_last() =~= files@.take(i as int));
        match records.checked_add(files[i].record_count) {
            None => {
                proof {
                    lemma_totals_grow(files@, i + 1);
                }
                return Err(bad_append("record count overflow"));
            },
            Some(sum) => {
                records = sum;
            },
        }
        i = i + 1;
    }
    assert(files@.take(i as int) =~= files@);
    let mut bytes: u64 = 0;
    let mut j: usize = 0;
    while j < files.len()
        invariant
            j <= files@.len(),
            records == total_records(files@),
            bytes == total_bytes(files@.take(j as int)),
        decreases files@.len() - j,
    {
        assert(files@.take(j + 1).drop_last() =~= files@.take(j as int));
        match bytes.checked_add(files[j].fingerprint.length) {
            None => {
                proof {
                    lemma_totals_grow(files@, j + 1);
                }
                return Err(bad_append("file size overflow"));
            },
            Some(sum) => {
                bytes = sum;
            },
        }
        j = j + 1;
    }
    assert(files@.take(j as int) =~= files@);
    if records > i64::MAX as u64 || bytes > i64::MAX as u64 {
        return Err(bad_append("summary exceeds SQLite INTEGER"));
    }
    Ok((records, bytes))
}

/// Checks a request against the table's current schema.
pub fn validate_request_against(
    request: &AppendRequest,
    current_schema: u32,
    fields: &Vec<Field>,
) -> (r: Result<(), RuntimeError>)
    ensures
        match r {
            Ok(()) => request_check(*request, current_schema, fields_view(fields@)) is Ok,
            Err(e) => request_check(*request, current_schema, fields_view(fields@)) == Err::<
                (),
                ErrorView,
            >(e@),
        },
{
    if request.idempotency_key.as_str().unicode_len() == 0 || reads(
        &request.idempotency_key,
        "otmp.genesis",
    ) {
        return Err(bad_append("invalid idempotency key"));
    }
    if request.files.len() == 0 {
        return Err(
            bad_append("local/full-image profile requires one non-empty append batch to main"),
        );
    }
    if has_reserved(&request.summary) {
        return Err(bad_append("caller summary uses a runtime-reserved key"));
    }
    let files = &request.files;
    let ghost all = fields_view(fields@);
    assert(files@.take(0) =~= Seq::<AppendFile>::empty());
    let mut i: usize = 0;
    while i < files.len()
        invariant
            i <= files@.len(),
            *files == request.files,
            all == fields_view(fields@),
            files_check(files@.take(i as int), current_schema, all) is Ok,
            files_check(files@, current_schema, all) is Err ==> request_check(
                *request,
                current_schema,
                all,
            ) == files_check(files@, current_schema, all),
        decreases files@.len() - i,
    {
        let ghost before = files@.take(i as int);
        let file = &files[i];
        proof {
            assert(files@.take(i + 1).drop_last() =~= before);
            assert(files@.take(i + 1).last() == *file);
            if files_check(files@.take(i + 1), current_schema, all) is Err {
                lemma_files_stop(files@, current_schema, all, i + 1);
            }
        }
        if file.schema_id != current_schema || file.partition_spec_id != 0 || file.sort_order_id
            != 0 || file.partition_values.len() != 0 || file.fingerprint.length > i64::MAX as u64
            || file.record_count > i64::MAX as u64 {
            return Err(
                bad_append("file assertions do not match local/full-image profile table defaults"),
            );
        }
        let mut j: usize = 0;
        while j < i
            invariant
                j <= i < files@.len(),
                *files == request.files,
                *file == files@[i as int],
                before == files@.take(i as int),
                fits_defaults(*file, current_schema),
                files_check(before, current_schema, all) is Ok,
                files@.take(i + 1).drop_last() == before,
                files@.take(i + 1).last() == *file,
                files_check(files@.take(i + 1), current_schema, all) is Err ==> files_check(
                    files@,
                    current_schema,
                    all,
                ) == files_check(files@.take(i + 1), current_schema, all),
                files_check(files@, current_schema, all) is Err ==> request_check(
                    *request,
                    current_schema,
                    all,
                ) == files_check(files@, current_schema, all),
                all == fields_view(fields@),
                forall|k: int| 0 <= k < j ==> !same_entry(#[trigger] before[k], *file),
            decreases i - j,
        {
            assert(before[j as int] == files@[j as int]);
            if are_same_entry(&files[j], file) {
                assert(repeats(before, *file));
                return Err(bad_append("duplicate logical file entry"));
            }
            j = j + 1;
        }
        assert(!repeats(before, *file));
        match validate_metrics(&file.metrics, fields) {
            Err(e) => {
                return Err(e);
            },
            Ok(()) => {},
        }
        i = i + 1;
    }
    assert(files@.take(i as int) =~= files@);
    match totals(files) {
        Err(e) => Err(e),
        Ok(_) => Ok(()),
    }
}

/// The summary of an append: what the caller gave, and the totals.
pub open spec fn summarizes(
    out: Seq<(Seq<char>, ValueView)>,
    request: AppendRequest,
) -> bool {
    let files = request.files@;
    &&& ascending(keys_of(out))
    &&& member_of(out, "added-data-files"@) == Some(
        ValueView::Text(decimal(files.len())),
    )
    &&& member_of(out, "added-records"@) == Some(
        ValueView::Text(decimal(total_records(files) as nat)),
    )
    &&& member_of(out, "added-files-size"@) == Some(
        ValueView::Text(decimal(total_bytes(files) as nat)),
    )
    &&& forall|key: Seq<char>|
        !reserved(key) ==> #[trigger] member_of(out, key) == member_of(
            members_view(request.summary@),
            key,
        )
}

pub fn number_text(n: u64) -> (text: String)
    ensures
        text@ == decimal(n as nat),
{
    let mut text = "".to_owned();
    proof {
        reveal_strlit("");
        assert(""@ =~= Seq::<char>::empty());
    }
    append_decimal(&mut text, n);
    assert(text@ =~= decimal(n as nat));
    text
}

/// Adds the totals to the caller's summary.
pub fn derived_summary(request: &AppendRequest) -> (r: Result<Vec<Member>, RuntimeError>)
    requires
        ascending(keys_of(members_view(request.summary@))),
    ensures
        match r {
            Ok(summary) => summary_check(request.files@) is Ok && summarizes(
                members_view(summary@),
                *request,
            ),
            Err(e) => summary_check(request.files@) == Err::<(), ErrorView>(e@),
        },
{
    let (records, bytes): (u64, u64) = match totals(&request.files) {
        Err(e) => {
            return Err(e);
        },
        Ok(sums) => sums,
    };
    proof {
        reveal_strlit("added-data-files");
        reveal_strlit("added-records");
        reveal_strlit("added-files-size");
        assert("added-data-files"@[6] != "added-records"@[6]);
        assert("added-files-size"@[6] != "added-records"@[6]);
        assert("added-data-files"@[6] != "added-files-size"@[6]);
    }
    let mut summary = copy_members(&request.summary);
    put_member(
        &mut summary,
        "added-data-files",
        CanonicalValue::Text(number_text(request.files.len() as u64)),
    );
    put_member(&mut summary, "added-records", CanonicalValue::Text(number_text(records)));
    put_member(&mut summary, "added-files-size", CanonicalValue::Text(number_text(bytes)));
    Ok(summary)
}

/// A staged file that matches the request's file at its place.
pub open spec fn staged_matches(
    file: AppendFile,
    staged: VerifiedStagedFile,
    table_id: Id,
    ordinal: int,
) -> bool {
    &&& staged.table_id == table_id
    &&& staged.ordinal == ordinal
    &&& staged.sha256 == file.fingerprint.sha256
    &&& staged.length == file.fingerprint.length
    &&& staged.format == file.format
    &&& staged.object_identity is None
}

pub open spec fn staged_before(
    staged: Seq<VerifiedStagedFile>,
    n: int,
    file: VerifiedStagedFile,
) -> bool {
    exists|i: int|
        0 <= i < n && ((#[trigger] staged[i]).file_id == file.file_id || staged[i].uri@
            == file.uri@)
}

/// The first staged file that does not match, if any.
pub open spec fn staged_ok(
    files: Seq<AppendFile>,
    staged: Seq<VerifiedStagedFile>,
    table_id: Id,
    i: int,
) -> bool {
    staged_matches(files[i], staged[i], table_id, i) && !staged_before(staged, i, staged[i])
}

/// Every staged file is in order.
pub open spec fn all_staged_ok(
    files: Seq<AppendFile>,
    staged: Seq<VerifiedStagedFile>,
    table_id: Id,
) -> bool {
    forall|i: int| 0 <= i < staged.len() ==> #[trigger] staged_ok(files, staged, table_id, i)
}

pub open spec fn staging_error(i: nat) -> ErrorView {
    ErrorView::StagingMismatch("entry "@ + decimal(i) + " does not match"@)
}

/// Checks staged files against the request that they were staged for.
pub fn validate_staged(
    request: &AppendRequest,
    staged: &Vec<VerifiedStagedFile>,
    table_id: Id,
) -> (r: Result<(), RuntimeError>)
    ensures
        match r {
            Ok(()) => {
                &&& request.files@.len() == staged@.len()
                &&& all_staged_ok(request.files@, staged@, table_id)
            },
            Err(e) => {
                ||| request.files@.len() != staged@.len() && e@ == ErrorView::StagingMismatch(
                    "entry count differs"@,
                )
                ||| {
                    &&& request.files@.len() == staged@.len()
                    &&& exists|i: int|
                        {
                            &&& 0 <= i < staged@.len()
                            &&& !#[trigger] staged_ok(request.files@, staged@, table_id, i)
                            &&& e@ == staging_error(i as nat)
                            &&& forall|k: int|
                                0 <= k < i ==> #[trigger] staged_ok(
                                    request.files@,
                                    staged@,
                                    table_id,
                                    k,
                                )
                        }
                }
            },
        },
{
    if request.files.len() != staged.len() {
        return Err(RuntimeError::StagingMismatch("entry count differs".to_owned()));
    }
    let files = &request.files;
    let mut i: usize = 0;
    while i < staged.len()
        invariant
            i <= staged@.len(),
            *files == request.files,
            files@.len() == staged@.len(),
            forall|k: int|
                0 <= k < i ==> #[trigger] staged_ok(request.files@, staged@, table_id, k),
        decreases staged@.len() - i,
    {
        let file = &files[i];
        let verified = &staged[i];
        let mut fits: bool = verified.table_id == table_id && verified.ordinal == i
            && verified.sha256 == file.fingerprint.sha256 && verified.length
            == file.fingerprint.length && verified.format == file.format
            && verified.object_identity.is_none();
        assert(fits == staged_matches(*file, *verified, table_id, i as int));
        let mut j: usize = 0;
        while j < i
            invariant
                j <= i < staged@.len(),
                *verified == staged@[i as int],
                fits == (staged_matches(*file, *verified, table_id, i as int) && !staged_before(
                    staged@,
                    j as int,
                    *verified,
                )),
            decreases i - j,
        {
            let earlier = &staged[j];
            let clash: bool = earlier.file_id == verified.file_id || earlier.uri == verified.uri;
            proof {
                if clash {
                    assert(staged@[j as int] == *earlier);
                    assert(staged_before(staged@, j + 1, *verified));
                } else if staged_before(staged@, j + 1, *verified) {
                    let k = choose|k: int|
                        0 <= k < j + 1 && ((#[trigger] staged@[k]).file_id == verified.file_id
                            || staged@[k].uri@ == verified.uri@);
                    assert(k < j);
                }
                if staged_before(staged@, j as int, *verified) {
                    let k = choose|k: int|
                        0 <= k < j && ((#[trigger] staged@[k]).file_id == verified.file_id
                            || staged@[k].uri@ == verified.uri@);
                    assert(staged_before(staged@, j + 1, *verified));
                }
            }
            if clash {
                fits = false;
            }
            j = j + 1;
        }
        assert(fits == staged_ok(request.files@, staged@, table_id, i as int));
        if !fits {
            let mut message = "entry ".to_owned();
            append_decimal(&mut message, i as u64);
            message.append(" does not match");
            return Err(RuntimeError::StagingMismatch(message));
        }
        i = i + 1;
    }
    Ok(())
}

pub open spec fn commits_staged(
    staged: Seq<VerifiedStagedFile>,
    files: Seq<CommittedFile>,
) -> bool {
    &&& staged.len() == files.len()
    &&& forall|i: int|
        0 <= i < files.len() ==> (#[trigger] staged[i]).file_id == files[i].file_id
            && staged[i].uri@ == files[i].uri@
}

/// Whether a stored result committed exactly the staged files.
pub fn staged_match_result(staged: &Vec<VerifiedStagedFile>, result: &AppendResult) -> (same: bool)
    ensures
        same == commits_staged(staged@, result.files@),
{
    if staged.len() != result.files.len() {
        return false;
    }
    let mut i: usize = 0;
    while i < staged.len()
        invariant
            i <= staged@.len(),
            staged@.len() == result.files@.len(),
            forall|k: int|
                0 <= k < i ==> (#[trigger] staged@[k]).file_id == result.files@[k].file_id
                    && staged@[k].uri@ == result.files@[k].uri@,
        decreases staged@.len() - i,
    {
        if staged[i].file_id != result.files[i].file_id || staged[i].uri != result.files[i].uri {
            return false;
        }
        i = i + 1;
    }
    true
}

/// Checks a request against the ref that it goes to, then against the schema.
pub fn validate_request_for_write(
    request: &AppendRequest,
    target: Option<RefType>,
    current_schema: u32,
    fields: &Vec<Field>,
) -> (r: Result<(), RuntimeError>)
    ensures
        ({
            let check = request_check(*request, current_schema, fields_view(fields@));
            match r {
                Ok(()) => target == Some(RefType::Branch) && check is Ok,
                Err(e) => if target != Some(RefType::Branch) {
                    e@ == invalid_append("target must exist and be a branch"@)
                } else {
                    check == Err::<(), ErrorView>(e@)
                },
            }
        }),
{
    match target {
        Some(RefType::Branch) => validate_request_against(request, current_schema, fields),
        _ => Err(bad_append("target must exist and be a branch")),
    }
}

/// A moment of the system clock as a request's timestamp.
pub fn timestamp_ms(millis: u128) -> (r: Result<i64, RuntimeError>)
    ensures
        match r {
            Ok(ms) => ms == millis,
            Err(e) => millis > i64::MAX && e@ == invalid_append("timestamp overflow"@),
        },
{
    if millis > i64::MAX as u128 {
        return Err(bad_append("timestamp overflow"));
    }
    Ok(millis as i64)
}

} // verus!

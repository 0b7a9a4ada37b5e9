//! What an append puts into the rows of a metadata image: the files of a request
//! as they were staged, and the commit that was prepared for it.
use crate::append::{AppendFile, AppendRequest, FileMetric, MetricBound, VerifiedStagedFile};
use crate::append_rows::{AppendImage, ImageFile, ImageMetric};
use crate::bytes::copy_range;
use crate::candidate::{ParentFacts, PreparedAppend};
use crate::error::RuntimeError;
use crate::hash::{sha256_of, Sha256};
use crate::projection::{blob_view, SummaryEntry};
use crate::value::{
    copy_members, copy_value, lemma_members_view, members_view, values_view,
    CanonicalValue, Member, ValueView,
};
use vstd::prelude::*;

verus! {

/// The encoded forms in which rows hold values and partition tuples.
pub trait RowCodec {
    /// A value in canonical text.
    fn value_text(&self, value: &CanonicalValue) -> Result<String, RuntimeError>;

    /// A partition tuple in its stored form.
    fn partition_tuple(&self, values: &Vec<Member>) -> Vec<u8>;

    /// The digest of a stored tuple under a partition spec.
    fn partition_hash(&self, spec: u32, tuple: &Vec<u8>) -> Sha256;
}

/// The codec gave this text for the value.
pub open spec fn text_given<C: RowCodec>(codec: C, value: ValueView, text: Seq<char>) -> bool {
    exists|v: CanonicalValue, t: String|
        {
            &&& #[trigger] call_ensures(
                C::value_text,
                (&codec, &v),
                Ok::<String, RuntimeError>(t),
            )
            &&& v@ == value
            &&& t@ == text
        }
}

/// The codec refused to put the value into text.
pub open spec fn text_refused<C: RowCodec>(codec: C, value: ValueView, e: RuntimeError) -> bool {
    exists|v: CanonicalValue|
        {
            &&& #[trigger] call_ensures(
                C::value_text,
                (&codec, &v),
                Err::<String, RuntimeError>(e),
            )
            &&& v@ == value
        }
}

pub open spec fn has_text<C: RowCodec>(codec: C, value: ValueView) -> bool {
    exists|text: Seq<char>| text_given(codec, value, text)
}

/// The codec gave a text for each of the values.
pub open spec fn texts_given<C: RowCodec>(codec: C, values: Seq<ValueView>) -> bool {
    forall|i: int| 0 <= i < values.len() ==> has_text(codec, #[trigger] values[i])
}

/// The codec refused the value at `i`, and gave a text for each before it.
pub open spec fn refused_at<C: RowCodec>(
    codec: C,
    values: Seq<ValueView>,
    i: int,
    e: RuntimeError,
) -> bool {
    &&& text_refused(codec, values[i], e)
    &&& texts_given(codec, values.take(i))
}

/// The first of the values that the codec refused was refused with this error.
pub open spec fn texts_fail<C: RowCodec>(
    codec: C,
    values: Seq<ValueView>,
    e: RuntimeError,
) -> bool {
    exists|i: int| 0 <= i < values.len() && #[trigger] refused_at(codec, values, i, e)
}

proof fn lemma_fail_first<C: RowCodec>(
    codec: C,
    first: Seq<ValueView>,
    rest: Seq<ValueView>,
    e: RuntimeError,
)
    requires
        texts_fail(codec, first, e),
    ensures
        texts_fail(codec, first + rest, e),
{
    let i = choose|i: int| 0 <= i < first.len() && #[trigger] refused_at(codec, first, i, e);
    let all = first + rest;
    assert(all.take(i) =~= first.take(i));
    assert(all[i] == first[i]);
    assert(refused_at(codec, all, i, e));
}

proof fn lemma_fail_later<C: RowCodec>(
    codec: C,
    first: Seq<ValueView>,
    rest: Seq<ValueView>,
    e: RuntimeError,
)
    requires
        texts_given(codec, first),
        texts_fail(codec, rest, e),
    ensures
        texts_fail(codec, first + rest, e),
{
    let i = choose|i: int| 0 <= i < rest.len() && #[trigger] refused_at(codec, rest, i, e);
    let all = first + rest;
    let at = first.len() + i;
    assert(all.take(at) =~= first + rest.take(i));
    lemma_given_join(codec, first, rest.take(i));
    assert(all[at] == rest[i]);
    assert(refused_at(codec, all, at, e));
}

proof fn lemma_given_join<C: RowCodec>(codec: C, first: Seq<ValueView>, rest: Seq<ValueView>)
    requires
        texts_given(codec, first),
        texts_given(codec, rest),
    ensures
        texts_given(codec, first + rest),
{
    let all = first + rest;
    assert forall|i: int| 0 <= i < all.len() implies has_text(codec, #[trigger] all[i]) by {
        if i < first.len() {
            assert(all[i] == first[i]);
        } else {
            assert(all[i] == rest[i - first.len()]);
        }
    }
}

/// A value's text, or why it has none.
fn value_text<C: RowCodec>(codec: &C, value: &CanonicalValue) -> (r: Result<String, RuntimeError>)
    ensures
        match r {
            Ok(text) => text_given(*codec, value@, text@) && texts_given(*codec, seq![value@]),
            Err(e) => texts_fail(*codec, seq![value@], e),
        },
{
    match codec.value_text(value) {
        Ok(text) => {
            assert(text_given(*codec, value@, text@));
            Ok(text)
        },
        Err(e) => {
            proof {
                let one = seq![value@];
                assert(text_refused(*codec, one[0], e));
                assert(one.take(0) =~= Seq::<ValueView>::empty());
                assert(refused_at(*codec, one, 0, e));
            }
            Err(e)
        },
    }
}

fn members_text<C: RowCodec>(codec: &C, members: &Vec<Member>) -> (r: Result<String, RuntimeError>)
    ensures
        match r {
            Ok(text) => {
                &&& text_given(*codec, ValueView::Object(members_view(members@)), text@)
                &&& texts_given(*codec, seq![ValueView::Object(members_view(members@))])
            },
            Err(e) => texts_fail(*codec, seq![ValueView::Object(members_view(members@))], e),
        },
{
    let value = CanonicalValue::Object(copy_members(members));
    assert(value@ == ValueView::Object(members_view(members@)));
    value_text(codec, &value)
}

/// A bound in its stored form.
pub open spec fn bound_cbor(bound: Option<MetricBound>) -> Option<Seq<u8>> {
    match bound {
        Some(bound) => Some(bound.cbor@),
        None => None,
    }
}

fn copy_bound(bound: &Option<MetricBound>) -> (cbor: Option<Vec<u8>>)
    ensures
        blob_view(cbor) == bound_cbor(*bound),
{
    match bound {
        None => None,
        Some(bound) => {
            let bytes = copy_range(bound.cbor.as_slice(), 0, bound.cbor.len());
            assert(bytes@ =~= bound.cbor@);
            Some(bytes)
        },
    }
}

/// A metric of a request as its row holds it.
pub open spec fn image_metric_is<C: RowCodec>(
    codec: C,
    out: ImageMetric,
    metric: FileMetric,
) -> bool {
    &&& out.field_id == metric.field_id
    &&& out.column_size_bytes == metric.column_size_bytes
    &&& out.value_count == metric.value_count
    &&& out.null_count == metric.null_count
    &&& out.nan_count == metric.nan_count
    &&& out.distinct_count == metric.distinct_count
    &&& blob_view(out.lower_bound_cbor) == bound_cbor(metric.lower_bound)
    &&& blob_view(out.upper_bound_cbor) == bound_cbor(metric.upper_bound)
    &&& text_given(
        codec,
        ValueView::Object(members_view(metric.metadata@)),
        out.metadata_json@,
    )
}

pub open spec fn image_metrics_are<C: RowCodec>(
    codec: C,
    out: Seq<ImageMetric>,
    metrics: Seq<FileMetric>,
) -> bool {
    &&& out.len() == metrics.len()
    &&& forall|i: int|
        0 <= i < out.len() ==> image_metric_is(codec, #[trigger] out[i], metrics[i])
}

/// The values that the rows of metrics hold in text.
pub open spec fn metric_values(metrics: Seq<FileMetric>) -> Seq<ValueView> {
    metrics.map_values(|metric: FileMetric| ValueView::Object(members_view(metric.metadata@)))
}

fn image_metrics<C: RowCodec>(codec: &C, metrics: &Vec<FileMetric>) -> (r: Result<
    Vec<ImageMetric>,
    RuntimeError,
>)
    ensures
        match r {
            Ok(out) => {
                &&& image_metrics_are(*codec, out@, metrics@)
                &&& texts_given(*codec, metric_values(metrics@))
            },
            Err(e) => texts_fail(*codec, metric_values(metrics@), e),
        },
{
    let ghost values = metric_values(metrics@);
    let mut out: Vec<ImageMetric> = Vec::new();
    let mut i: usize = 0;
    while i < metrics.len()
        invariant
            i <= metrics@.len(),
            values == metric_values(metrics@),
            image_metrics_are(*codec, out@, metrics@.take(i as int)),
            texts_given(*codec, values.take(i as int)),
        decreases metrics@.len() - i,
    {
        let metric = &metrics[i];
        proof {
            assert(values[i as int] == ValueView::Object(members_view(metric.metadata@)));
            assert(values =~= values.take(i as int) + seq![values[i as int]] + values.skip(i + 1));
        }
        let metadata_json = match members_text(codec, &metric.metadata) {
            Err(e) => {
                proof {
                    lemma_fail_later(*codec, values.take(i as int), seq![values[i as int]], e);
                    lemma_fail_first(
                        *codec,
                        values.take(i as int) + seq![values[i as int]],
                        values.skip(i + 1),
                        e,
                    );
                }
                return Err(e);
            },
            Ok(text) => text,
        };
        let ghost before = out@;
        out.push(
            ImageMetric {
                field_id: metric.field_id,
                column_size_bytes: metric.column_size_bytes,
                value_count: metric.value_count,
                null_count: metric.null_count,
                nan_count: metric.nan_count,
                distinct_count: metric.distinct_count,
                lower_bound_cbor: copy_bound(&metric.lower_bound),
                upper_bound_cbor: copy_bound(&metric.upper_bound),
                metadata_json,
            },
        );
        proof {
            lemma_given_join(*codec, values.take(i as int), seq![values[i as int]]);
            assert(values.take(i + 1) =~= values.take(i as int) + seq![values[i as int]]);
            let seen = metrics@.take(i + 1);
            assert forall|k: int| 0 <= k < out@.len() implies image_metric_is(
                *codec,
                #[trigger] out@[k],
                seen[k],
            ) by {
                if k < i {
                    assert(out@[k] == before[k]);
                    assert(image_metric_is(*codec, before[k], metrics@.take(i as int)[k]));
                }
            }
        }
        i = i + 1;
    }
    proof {
        assert(metrics@.take(i as int) =~= metrics@);
        assert(values.take(i as int) =~= values);
    }
    Ok(out)
}

/// A file as its row holds it: what was staged says which object it is, the
/// request says what it contains.
pub open spec fn image_file_is<C: RowCodec>(
    codec: C,
    out: ImageFile,
    file: AppendFile,
    staged: VerifiedStagedFile,
) -> bool {
    &&& out.file_id == staged.file_id
    &&& out.uri@ == staged.uri@
    &&& out.file_size_bytes == staged.length
    &&& out.content_sha256 == staged.sha256
    &&& out.format == file.format
    &&& out.record_count == file.record_count
    &&& out.schema_id == file.schema_id
    &&& out.partition_spec_id == file.partition_spec_id
    &&& out.sort_order_id == file.sort_order_id
    &&& call_ensures(
        C::partition_tuple,
        (&codec, &file.partition_values),
        out.partition_values_cbor,
    )
    &&& call_ensures(
        C::partition_hash,
        (&codec, file.partition_spec_id, &out.partition_values_cbor),
        out.partition_hash,
    )
    &&& image_metrics_are(codec, out.metrics@, file.metrics@)
    &&& text_given(
        codec,
        ValueView::Object(members_view(file.metadata@)),
        out.metadata_json@,
    )
}

pub open spec fn image_files_are<C: RowCodec>(
    codec: C,
    out: Seq<ImageFile>,
    files: Seq<AppendFile>,
    staged: Seq<VerifiedStagedFile>,
) -> bool {
    &&& out.len() == files.len()
    &&& forall|i: int|
        0 <= i < out.len() ==> image_file_is(codec, #[trigger] out[i], files[i], staged[i])
}

/// The values that the rows of a file hold in text: its metrics', then its own.
pub open spec fn file_values(file: AppendFile) -> Seq<ValueView> {
    metric_values(file.metrics@) + seq![ValueView::Object(members_view(file.metadata@))]
}

/// The values that the rows of files hold in text, file by file.
pub open spec fn files_values(files: Seq<AppendFile>) -> Seq<ValueView>
    decreases files.len(),
{
    if files.len() == 0 {
        Seq::empty()
    } else {
        files_values(files.drop_last()) + file_values(files.last())
    }
}

proof fn lemma_files_fail<C: RowCodec>(
    codec: C,
    files: Seq<AppendFile>,
    n: int,
    e: RuntimeError,
)
    requires
        0 <= n <= files.len(),
        texts_fail(codec, files_values(files.take(n)), e),
    ensures
        texts_fail(codec, files_values(files), e),
    decreases files.len() - n,
{
    if n == files.len() {
        assert(files.take(n) =~= files);
    } else {
        let more = files.take(n + 1);
        assert(more.drop_last() =~= files.take(n));
        lemma_fail_first(codec, files_values(files.take(n)), file_values(files[n]), e);
        lemma_files_fail(codec, files, n + 1, e);
    }
}

fn image_file<C: RowCodec>(codec: &C, file: &AppendFile, staged: &VerifiedStagedFile) -> (r: Result<
    ImageFile,
    RuntimeError,
>)
    ensures
        match r {
            Ok(out) => {
                &&& image_file_is(*codec, out, *file, *staged)
                &&& texts_given(*codec, file_values(*file))
            },
            Err(e) => texts_fail(*codec, file_values(*file), e),
        },
{
    let ghost own = seq![ValueView::Object(members_view(file.metadata@))];
    let partition_values_cbor = codec.partition_tuple(&file.partition_values);
    let metrics = match image_metrics(codec, &file.metrics) {
        Err(e) => {
            proof {
                lemma_fail_first(*codec, metric_values(file.metrics@), own, e);
            }
            return Err(e);
        },
        Ok(metrics) => metrics,
    };
    let metadata_json = match members_text(codec, &file.metadata) {
        Err(e) => {
            proof {
                lemma_fail_later(*codec, metric_values(file.metrics@), own, e);
            }
            return Err(e);
        },
        Ok(text) => text,
    };
    proof {
        lemma_given_join(*codec, metric_values(file.metrics@), own);
    }
    let partition_hash = codec.partition_hash(file.partition_spec_id, &partition_values_cbor);
    Ok(
        ImageFile {
            file_id: staged.file_id,
            uri: staged.uri.clone(),
            format: file.format,
            file_size_bytes: staged.length,
            record_count: file.record_count,
            schema_id: file.schema_id,
            partition_spec_id: file.partition_spec_id,
            sort_order_id: file.sort_order_id,
            partition_hash,
            partition_values_cbor,
            content_sha256: staged.sha256,
            metrics,
            metadata_json,
        },
    )
}

/// The files of a request, as they were staged, in the form of their rows.
pub fn image_files<C: RowCodec>(
    codec: &C,
    request: &AppendRequest,
    staged: &Vec<VerifiedStagedFile>,
) -> (r: Result<Vec<ImageFile>, RuntimeError>)
    requires
        staged@.len() == request.files@.len(),
    ensures
        match r {
            Ok(out) => {
                &&& image_files_are(*codec, out@, request.files@, staged@)
                &&& texts_given(*codec, files_values(request.files@))
            },
            Err(e) => texts_fail(*codec, files_values(request.files@), e),
        },
{
    let ghost files = request.files@;
    let mut out: Vec<ImageFile> = Vec::new();
    let mut i: usize = 0;
    assert(files.take(0) =~= Seq::<AppendFile>::empty());
    while i < request.files.len()
        invariant
            i <= files.len(),
            files == request.files@,
            staged@.len() == files.len(),
            image_files_are(*codec, out@, files.take(i as int), staged@),
            texts_given(*codec, files_values(files.take(i as int))),
        decreases files.len() - i,
    {
        proof {
            assert(files.take(i + 1).drop_last() =~= files.take(i as int));
            assert(files.take(i + 1).last() == files[i as int]);
        }
        let file = match image_file(codec, &request.files[i], &staged[i]) {
            Err(e) => {
                proof {
                    lemma_fail_later(
                        *codec,
                        files_values(files.take(i as int)),
                        file_values(files[i as int]),
                        e,
                    );
                    lemma_files_fail(*codec, files, i + 1, e);
                }
                return Err(e);
            },
            Ok(file) => file,
        };
        let ghost before = out@;
        out.push(file);
        proof {
            lemma_given_join(
                *codec,
                files_values(files.take(i as int)),
                file_values(files[i as int]),
            );
            let seen = files.take(i + 1);
            assert forall|k: int| 0 <= k < out@.len() implies image_file_is(
                *codec,
                #[trigger] out@[k],
                seen[k],
                staged@[k],
            ) by {
                if k < i {
                    assert(out@[k] == before[k]);
                    assert(image_file_is(*codec, before[k], files.take(i as int)[k], staged@[k]));
                }
            }
        }
        i = i + 1;
    }
    assert(files.take(i as int) =~= files);
    Ok(out)
}

/// The members of a summary, each value in text.
pub open spec fn summary_is<C: RowCodec>(
    codec: C,
    out: Seq<SummaryEntry>,
    summary: Seq<(Seq<char>, ValueView)>,
) -> bool {
    &&& out.len() == summary.len()
    &&& forall|i: int|
        0 <= i < out.len() ==> (#[trigger] out[i]).key@ == summary[i].0 && text_given(
            codec,
            summary[i].1,
            out[i].value_json@,
        )
}

pub open spec fn summary_values(summary: Seq<(Seq<char>, ValueView)>) -> Seq<ValueView> {
    summary.map_values(|member: (Seq<char>, ValueView)| member.1)
}

fn summary_entries<C: RowCodec>(codec: &C, summary: &Vec<Member>) -> (r: Result<
    Vec<SummaryEntry>,
    RuntimeError,
>)
    ensures
        match r {
            Ok(out) => {
                &&& summary_is(*codec, out@, members_view(summary@))
                &&& texts_given(*codec, summary_values(members_view(summary@)))
            },
            Err(e) => texts_fail(*codec, summary_values(members_view(summary@)), e),
        },
{
    let ghost members = members_view(summary@);
    let ghost values = summary_values(members);
    proof {
        lemma_members_view(summary@);
    }
    let mut out: Vec<SummaryEntry> = Vec::new();
    let mut i: usize = 0;
    while i < summary.len()
        invariant
            i <= summary@.len(),
            members == members_view(summary@),
            members.len() == summary@.len(),
            forall|k: int|
                0 <= k < summary@.len() ==> #[trigger] members[k] == (
                    summary@[k].key@,
                    summary@[k].value@,
                ),
            values == summary_values(members),
            summary_is(*codec, out@, members.take(i as int)),
            texts_given(*codec, values.take(i as int)),
        decreases summary@.len() - i,
    {
        proof {
            assert(members[i as int] == (summary@[i as int].key@, summary@[i as int].value@));
            assert(values[i as int] == summary@[i as int].value@);
            assert(values =~= values.take(i as int) + seq![values[i as int]] + values.skip(i + 1));
        }
        let value_json = match value_text(codec, &summary[i].value) {
            Err(e) => {
                proof {
                    lemma_fail_later(*codec, values.take(i as int), seq![values[i as int]], e);
                    lemma_fail_first(
                        *codec,
                        values.take(i as int) + seq![values[i as int]],
                        values.skip(i + 1),
                        e,
                    );
                }
                return Err(e);
            },
            Ok(text) => text,
        };
        let ghost before = out@;
        out.push(SummaryEntry { key: summary[i].key.clone(), value_json });
        proof {
            lemma_given_join(*codec, values.take(i as int), seq![values[i as int]]);
            assert(values.take(i + 1) =~= values.take(i as int) + seq![values[i as int]]);
            let seen = members.take(i + 1);
            assert forall|k: int| 0 <= k < out@.len() implies (#[trigger] out@[k]).key@ == seen[k].0
                && text_given(*codec, seen[k].1, out@[k].value_json@) by {
                if k < i {
                    assert(out@[k] == before[k]);
                    assert(before[k].key@ == members.take(i as int)[k].0);
                }
            }
        }
        i = i + 1;
    }
    proof {
        assert(members.take(i as int) =~= members);
        assert(values.take(i as int) =~= values);
    }
    Ok(out)
}

/// The values that an append's own rows hold in text: the result, the operations
/// and the metadata of its commit, and the metadata of its snapshot.
pub open spec fn commit_values(request: AppendRequest, prepared: PreparedAppend) -> Seq<ValueView> {
    seq![
        prepared.commit.intents@[0].result@,
        ValueView::Array(values_view(prepared.commit.operations@)),
        prepared.commit.metadata@,
        ValueView::Object(members_view(request.snapshot_metadata@)),
    ]
}

/// All values that the rows of an append hold in text, in the order in which they
/// are put into it.
pub open spec fn append_values(request: AppendRequest, prepared: PreparedAppend) -> Seq<ValueView> {
    commit_values(request, prepared) + files_values(request.files@) + seq![
        ValueView::Object(members_view(prepared.summary@)),
    ] + summary_values(members_view(prepared.summary@))
}

/// The append that the rows of an image take up, for a prepared commit.
pub open spec fn append_image_is<C: RowCodec>(
    codec: C,
    out: AppendImage,
    request: AppendRequest,
    staged: Seq<VerifiedStagedFile>,
    parent: ParentFacts,
    prepared: PreparedAppend,
) -> bool {
    let commit = prepared.commit;
    &&& out.table_version == commit.table_version
    &&& out.created_at_ms == commit.created_at_ms
    &&& out.semantic_state == commit.semantic_state_sha256
    &&& out.commit_id == commit.commit_id
    &&& out.commit_hash@ == sha256_of(prepared.commit_bytes@)
    &&& out.commit_uri@ == prepared.commit_uri@
    &&& text_given(codec, commit.intents@[0].result@, out.result_json@)
    &&& text_given(
        codec,
        ValueView::Array(values_view(commit.operations@)),
        out.operation_json@,
    )
    &&& text_given(codec, commit.metadata@, out.commit_metadata_json@)
    &&& out.idempotency_key@ == commit.intents@[0].key@
    &&& out.intent_hash == commit.intents@[0].intent_sha256
    &&& out.snapshot_id == prepared.result.snapshot_id
    &&& out.parent_snapshot_id == parent.snapshot_id
    &&& out.target_ref@ == request.target_ref@
    &&& out.sequence_number == prepared.result.sequence_number
    &&& text_given(
        codec,
        ValueView::Object(members_view(prepared.summary@)),
        out.summary_json@,
    )
    &&& summary_is(codec, out.summary@, members_view(prepared.summary@))
    &&& text_given(
        codec,
        ValueView::Object(members_view(request.snapshot_metadata@)),
        out.snapshot_metadata_json@,
    )
    &&& image_files_are(codec, out.files@, request.files@, staged)
}

proof fn lemma_fail_at<C: RowCodec>(codec: C, values: Seq<ValueView>, i: int, e: RuntimeError)
    requires
        0 <= i < values.len(),
        texts_given(codec, values.take(i)),
        texts_fail(codec, seq![values[i]], e),
    ensures
        texts_fail(codec, values, e),
{
    lemma_fail_later(codec, values.take(i), seq![values[i]], e);
    lemma_fail_first(codec, values.take(i) + seq![values[i]], values.skip(i + 1), e);
    assert(values =~= values.take(i) + seq![values[i]] + values.skip(i + 1));
}

/// The append that the rows of an image take up: the files as they were staged, and
/// the commit that was prepared on the parent.
pub fn append_image<C: RowCodec>(
    codec: &C,
    request: &AppendRequest,
    staged: &Vec<VerifiedStagedFile>,
    parent: &ParentFacts,
    prepared: &PreparedAppend,
) -> (r: Result<AppendImage, RuntimeError>)
    requires
        staged@.len() == request.files@.len(),
        prepared.commit.intents@.len() > 0,
    ensures
        match r {
            Ok(out) => {
                &&& append_image_is(*codec, out, *request, staged@, *parent, *prepared)
                &&& texts_given(*codec, append_values(*request, *prepared))
            },
            Err(e) => texts_fail(*codec, append_values(*request, *prepared), e),
        },
{
    let commit = &prepared.commit;
    let ghost own = commit_values(*request, *prepared);
    let ghost of_files = files_values(request.files@);
    let ghost whole = seq![ValueView::Object(members_view(prepared.summary@))];
    let ghost each = summary_values(members_view(prepared.summary@));
    let result_json = match value_text(codec, &commit.intents[0].result) {
        Err(e) => {
            proof {
                assert(own.take(0) =~= Seq::<ValueView>::empty());
                lemma_fail_at(*codec, own, 0, e);
                lemma_fail_first(*codec, own, of_files, e);
                lemma_fail_first(*codec, own + of_files, whole, e);
                lemma_fail_first(*codec, own + of_files + whole, each, e);
            }
            return Err(e);
        },
        Ok(text) => text,
    };
    assert(own.take(1) =~= seq![own[0]]);
    let operations = copy_values(&commit.operations);
    let operation_json = match value_text(codec, &CanonicalValue::Array(operations)) {
        Err(e) => {
            proof {
                lemma_fail_at(*codec, own, 1, e);
                lemma_fail_first(*codec, own, of_files, e);
                lemma_fail_first(*codec, own + of_files, whole, e);
                lemma_fail_first(*codec, own + of_files + whole, each, e);
            }
            return Err(e);
        },
        Ok(text) => text,
    };
    proof {
        lemma_given_join(*codec, own.take(1), seq![own[1]]);
        assert(own.take(2) =~= own.take(1) + seq![own[1]]);
    }
    let commit_metadata_json = match value_text(codec, &commit.metadata) {
        Err(e) => {
            proof {
                lemma_fail_at(*codec, own, 2, e);
                lemma_fail_first(*codec, own, of_files, e);
                lemma_fail_first(*codec, own + of_files, whole, e);
                lemma_fail_first(*codec, own + of_files + whole, each, e);
            }
            return Err(e);
        },
        Ok(text) => text,
    };
    proof {
        lemma_given_join(*codec, own.take(2), seq![own[2]]);
        assert(own.take(3) =~= own.take(2) + seq![own[2]]);
    }
    let snapshot_metadata_json = match members_text(codec, &request.snapshot_metadata) {
        Err(e) => {
            proof {
                lemma_fail_at(*codec, own, 3, e);
                lemma_fail_first(*codec, own, of_files, e);
                lemma_fail_first(*codec, own + of_files, whole, e);
                lemma_fail_first(*codec, own + of_files + whole, each, e);
            }
            return Err(e);
        },
        Ok(text) => text,
    };
    proof {
        lemma_given_join(*codec, own.take(3), seq![own[3]]);
        assert(own =~= own.take(3) + seq![own[3]]);
    }
    let files = match image_files(codec, request, staged) {
        Err(e) => {
            proof {
                lemma_fail_later(*codec, own, of_files, e);
                lemma_fail_first(*codec, own + of_files, whole, e);
                lemma_fail_first(*codec, own + of_files + whole, each, e);
            }
            return Err(e);
        },
        Ok(files) => files,
    };
    proof {
        lemma_given_join(*codec, own, of_files);
    }
    let summary_json = match members_text(codec, &prepared.summary) {
        Err(e) => {
            proof {
                lemma_fail_later(*codec, own + of_files, whole, e);
                lemma_fail_first(*codec, own + of_files + whole, each, e);
            }
            return Err(e);
        },
        Ok(text) => text,
    };
    proof {
        lemma_given_join(*codec, own + of_files, whole);
    }
    let summary = match summary_entries(codec, &prepared.summary) {
        Err(e) => {
            proof {
                lemma_fail_later(*codec, own + of_files + whole, each, e);
            }
            return Err(e);
        },
        Ok(summary) => summary,
    };
    proof {
        lemma_given_join(*codec, own + of_files + whole, each);
    }
    Ok(
        AppendImage {
            table_version: commit.table_version,
            created_at_ms: commit.created_at_ms,
            semantic_state: commit.semantic_state_sha256,
            commit_id: commit.commit_id,
            commit_hash: Sha256::digest(prepared.commit_bytes.as_slice()),
            commit_uri: prepared.commit_uri.clone(),
            operation_json,
            result_json,
            commit_metadata_json,
            idempotency_key: commit.intents[0].key.clone(),
            intent_hash: commit.intents[0].intent_sha256,
            snapshot_id: prepared.result.snapshot_id,
            parent_snapshot_id: parent.snapshot_id,
            target_ref: request.target_ref.clone(),
            sequence_number: prepared.result.sequence_number,
            summary_json,
            summary,
            snapshot_metadata_json,
            files,
        },
    )
}

fn copy_values(values: &Vec<CanonicalValue>) -> (copy: Vec<CanonicalValue>)
    ensures
        values_view(copy@) == values_view(values@),
{
    let mut out: Vec<CanonicalValue> = Vec::new();
    let mut i: usize = 0;
    assert(values@.take(0) =~= Seq::<CanonicalValue>::empty());
    assert(out@ =~= Seq::<CanonicalValue>::empty());
    while i < values.len()
        invariant
            i <= values@.len(),
            values_view(out@) == values_view(values@.take(i as int)),
        decreases values@.len() - i,
    {
        let ghost before = out@;
        out.push(copy_value(&values[i]));
        proof {
            assert(out@.drop_last() =~= before);
            assert(values@.take(i + 1).drop_last() =~= values@.take(i as int));
        }
        i = i + 1;
    }
    assert(values@.take(i as int) =~= values@);
    out
}

} // verus!

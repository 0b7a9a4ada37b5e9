//! What an append leaves behind: the rows of a table, and the commit that tells of it.
use crate::append::{
    AppendFile, AppendRequest, VerifiedStagedFile,
};
use crate::append_rows::{
    append_check, appended, apply_append, branches, change_row_from, counts_fit, file_fits,
    file_metrics, file_row_from, files_fit, live_row_from, metric_row_from, metrics_fit,
    moved_ref, AppendImage, ImageFile, ImageMetric,
};
use crate::candidate::{
    append_document, file_document, file_documents, prepare_append, ParentFacts, PreparedAppend,
};
use crate::documents::DocumentCodec;
use crate::error::RuntimeError;
use crate::hash::{Id, Sha256};
use crate::laws::carried_appends::{all_leave_alone, leaves_alone, says};
use crate::laws::staged_appends::{
    bytes_of, lemma_decimal_writes, records_of, writes,
};
use crate::tables::{FileRecord, ImageRows, LiveRow, MetricRecord, RefRecord};
use crate::text::decimal;
use crate::value::{values_view, ValueView};
use vstd::prelude::*;

verus! {

/// What fits a signed number of eight bytes.
pub open spec fn fits(n: u64) -> bool {
    n <= 0x7fff_ffff_ffff_ffff
}

pub open spec fn count_fits(n: Option<u64>) -> bool {
    n matches Some(count) ==> fits(count)
}

pub open spec fn metric_fits(metric: ImageMetric) -> bool {
    &&& count_fits(metric.column_size_bytes)
    &&& count_fits(metric.value_count)
    &&& count_fits(metric.null_count)
    &&& count_fits(metric.nan_count)
    &&& count_fits(metric.distinct_count)
}

pub open spec fn numbers_fit(file: ImageFile) -> bool {
    &&& fits(file.file_size_bytes)
    &&& fits(file.record_count)
    &&& forall|m: int|
        0 <= m < file.metrics@.len() ==> metric_fits(#[trigger] file.metrics@[m])
}

pub open spec fn is_target(refs: Seq<RefRecord>, i: int, name: Seq<char>) -> bool {
    0 <= i < refs.len() && refs[i].name@ == name && refs[i].ref_type@ == "branch"@
}

/// Exactly one branch has the name.
pub open spec fn one_target(refs: Seq<RefRecord>, name: Seq<char>) -> bool {
    exists|i: int|
        {
            &&& #[trigger] is_target(refs, i, name)
            &&& forall|j: int| j != i ==> !#[trigger] is_target(refs, j, name)
        }
}

proof fn lemma_metrics_fit(metrics: Seq<ImageMetric>)
    ensures
        metrics_fit(metrics) is Ok <==> forall|m: int|
            0 <= m < metrics.len() ==> metric_fits(#[trigger] metrics[m]),
    decreases metrics.len(),
{
    if metrics.len() > 0 {
        let front = metrics.drop_last();
        let n = metrics.len() - 1;
        lemma_metrics_fit(front);
        assert(counts_fit(metrics.last()) is Ok <==> metric_fits(metrics[n]));
        assert forall|m: int| 0 <= m < n implies #[trigger] metrics[m] == front[m] by {}
        if forall|m: int| 0 <= m < metrics.len() ==> metric_fits(#[trigger] metrics[m]) {
            assert forall|m: int| 0 <= m < front.len() implies metric_fits(
                #[trigger] front[m],
            ) by {
                assert(front[m] == metrics[m]);
            }
        }
        if metrics_fit(metrics) is Ok {
            assert forall|m: int| 0 <= m < metrics.len() implies metric_fits(
                #[trigger] metrics[m],
            ) by {
                if m < n {
                    assert(metric_fits(front[m]));
                }
            }
        }
    }
}

proof fn lemma_files_fit(files: Seq<ImageFile>)
    ensures
        files_fit(files) is Ok <==> forall|i: int|
            0 <= i < files.len() ==> numbers_fit(#[trigger] files[i]),
    decreases files.len(),
{
    if files.len() > 0 {
        let front = files.drop_last();
        let n = files.len() - 1;
        lemma_files_fit(front);
        lemma_metrics_fit(files.last().metrics@);
        assert(file_fits(files.last()) is Ok <==> numbers_fit(files[n]));
        assert forall|i: int| 0 <= i < n implies #[trigger] files[i] == front[i] by {}
        if forall|i: int| 0 <= i < files.len() ==> numbers_fit(#[trigger] files[i]) {
            assert forall|i: int| 0 <= i < front.len() implies numbers_fit(#[trigger] front[i]) by {
                assert(front[i] == files[i]);
            }
        }
        if files_fit(files) is Ok {
            assert forall|i: int| 0 <= i < files.len() implies numbers_fit(#[trigger] files[i]) by {
                if i < n {
                    assert(numbers_fit(front[i]));
                }
            }
        }
    }
}

proof fn lemma_targets(refs: Seq<RefRecord>, name: Seq<char>)
    ensures
        branches(refs, name) == 0 <==> forall|i: int| !#[trigger] is_target(refs, i, name),
        branches(refs, name) == 1 <==> one_target(refs, name),
    decreases refs.len(),
{
    if refs.len() > 0 {
        let front = refs.drop_last();
        let n = refs.len() - 1;
        lemma_targets(front, name);
        assert forall|i: int| i != n implies (#[trigger] is_target(refs, i, name) <==> is_target(
            front,
            i,
            name,
        )) by {}
        if branches(front, name) == 0 {
            assert forall|i: int| i != n implies !#[trigger] is_target(refs, i, name) by {
                assert(!is_target(front, i, name));
            }
            if is_target(refs, n, name) {
                assert(one_target(refs, name));
            } else {
                assert forall|i: int| !#[trigger] is_target(refs, i, name) by {}
            }
        } else {
            let k = choose|k: int| #[trigger] is_target(front, k, name);
            assert(is_target(refs, k, name));
            if branches(front, name) == 1 && !is_target(refs, n, name) {
                let i = choose|i: int|
                    {
                        &&& #[trigger] is_target(front, i, name)
                        &&& forall|j: int| j != i ==> !#[trigger] is_target(front, j, name)
                    };
                assert(is_target(refs, i, name));
                assert forall|j: int| j != i implies !#[trigger] is_target(refs, j, name) by {
                    assert(!is_target(front, j, name));
                }
                assert(one_target(refs, name));
            }
            if one_target(refs, name) {
                let i = choose|i: int|
                    {
                        &&& #[trigger] is_target(refs, i, name)
                        &&& forall|j: int| j != i ==> !#[trigger] is_target(refs, j, name)
                    };
                assert(i == k);
                assert(!is_target(refs, n, name));
                assert forall|j: int| j != i implies !#[trigger] is_target(front, j, name) by {
                    assert(!is_target(refs, j, name));
                }
                assert(one_target(front, name));
            }
        }
    }
}

/// The row is that of the file, made by the append.
pub open spec fn keeps_file(row: FileRecord, file: ImageFile, input: AppendImage) -> bool {
    &&& row.file_id == file.file_id
    &&& row.uri@ == file.uri@
    &&& row.file_kind@ == "data"@
    &&& row.file_format@ == "parquet"@
    &&& row.file_size_bytes == file.file_size_bytes
    &&& row.record_count == file.record_count
    &&& row.schema_id == file.schema_id
    &&& row.partition_spec_id == file.partition_spec_id
    &&& row.sort_order_id == Some(file.sort_order_id as i64)
    &&& row.content_sha256 == Some(file.content_sha256)
    &&& row.object_identity is None
    &&& row.encryption_metadata is None
    &&& row.file_sequence_number == input.sequence_number
    &&& row.data_sequence_number == input.sequence_number
    &&& row.created_snapshot_id == input.snapshot_id
    &&& row.created_version == input.table_version
    &&& row.partition_values_cbor@ == file.partition_values_cbor@
    &&& row.partition_hash == file.partition_hash
    &&& row.metadata_json@ == file.metadata_json@
}

/// The row makes the file live on the target of the append.
pub open spec fn keeps_live(row: LiveRow, file: ImageFile, input: AppendImage) -> bool {
    &&& row.ref_name@ == input.target_ref@
    &&& row.file_id == file.file_id
    &&& row.added_snapshot_id == input.snapshot_id
    &&& row.file_sequence_number == input.sequence_number
    &&& row.data_sequence_number == input.sequence_number
}

pub open spec fn keeps_count(row: Option<i64>, value: Option<u64>) -> bool {
    match value {
        None => row is None,
        Some(n) => row matches Some(m) && m == n,
    }
}

pub open spec fn keeps_bytes(row: Option<Vec<u8>>, value: Option<Vec<u8>>) -> bool {
    match value {
        None => row is None,
        Some(bytes) => row matches Some(kept) && kept@ == bytes@,
    }
}

/// The row is that of the metric.
pub open spec fn keeps_metric(row: MetricRecord, file: Id, metric: ImageMetric) -> bool {
    &&& row.file_id == file
    &&& row.field_id == metric.field_id
    &&& keeps_count(row.column_size_bytes, metric.column_size_bytes)
    &&& keeps_count(row.value_count, metric.value_count)
    &&& keeps_count(row.null_count, metric.null_count)
    &&& keeps_count(row.nan_count, metric.nan_count)
    &&& keeps_count(row.distinct_count, metric.distinct_count)
    &&& keeps_bytes(row.lower_bound_cbor, metric.lower_bound_cbor)
    &&& keeps_bytes(row.upper_bound_cbor, metric.upper_bound_cbor)
    &&& row.metadata_json@ == metric.metadata_json@
}

/// A metric of the file is stored.
pub open spec fn has_metric(
    metrics: Seq<MetricRecord>,
    from: int,
    file: Id,
    metric: ImageMetric,
) -> bool {
    exists|k: int|
        from <= k < metrics.len() && keeps_metric(#[trigger] metrics[k], file, metric)
}

proof fn lemma_metric_place(files: Seq<ImageFile>, i: int, m: int) -> (k: int)
    requires
        0 <= i < files.len(),
        0 <= m < files[i].metrics@.len(),
    ensures
        0 <= k < file_metrics(files).len(),
        file_metrics(files)[k] == (files[i].file_id, files[i].metrics@[m]),
    decreases files.len(),
{
    let front = files.drop_last();
    let before = file_metrics(front);
    if i < front.len() {
        assert(front[i] == files[i]);
        let k = lemma_metric_place(front, i, m);
        assert(file_metrics(files)[k] == before[k]);
        k
    } else {
        assert(file_metrics(files)[before.len() + m] == (files[i].file_id, files[i].metrics@[m]));
        before.len() + m
    }
}

/// The rows of one table begin as before.
pub open spec fn begins_with<A>(after: Seq<A>, before: Seq<A>) -> bool {
    after.len() >= before.len() && forall|i: int|
        0 <= i < before.len() ==> #[trigger] after[i] == before[i]
}

proof fn lemma_begins<A>(after: Seq<A>, before: Seq<A>)
    requires
        after.len() >= before.len(),
        after.take(before.len() as int) == before,
    ensures
        begins_with(after, before),
{
    assert forall|i: int| 0 <= i < before.len() implies #[trigger] after[i] == before[i] by {
        assert(after.take(before.len() as int)[i] == after[i]);
    }
}

/// An append can be written into a table exactly if it is the next version, its
/// numbers can be stored, and one branch has the name of its target. Then each file,
/// each metric and the snapshot are stored and the files are live on the branch, the
/// branch names the snapshot, the request is remembered under its key, and whatever
/// was there is still there.
#[verifier::rlimit(40)]
#[verifier::spinoff_prover]
pub proof fn lemma_append_is_stored(
    rows: ImageRows,
    input: AppendImage,
    r: Result<ImageRows, RuntimeError>,
)
    requires
        call_ensures(apply_append, (rows, &input), r),
    ensures
        r is Ok <==> {
            &&& rows.meta.table_version < 0x7fff_ffff_ffff_ffff
            &&& input.table_version == rows.meta.table_version + 1
            &&& fits(input.sequence_number)
            &&& forall|i: int|
                0 <= i < input.files@.len() ==> numbers_fit(#[trigger] input.files@[i])
            &&& one_target(rows.refs@, input.target_ref@)
        },
        r matches Ok(end) ==> {
            let n = input.files@.len();
            &&& begins_with(end.files@, rows.files@)
            &&& begins_with(end.live@, rows.live@)
            &&& begins_with(end.changes@, rows.changes@)
            &&& begins_with(end.metrics@, rows.metrics@)
            &&& begins_with(end.snapshots@, rows.snapshots@)
            &&& begins_with(end.commits@, rows.commits@)
            &&& begins_with(end.intents@, rows.intents@)
            &&& end.files@.len() == rows.files@.len() + n
            &&& end.live@.len() == rows.live@.len() + n
            &&& end.changes@.len() == rows.changes@.len() + n
            &&& forall|i: int|
                0 <= i < n ==> {
                    let file = #[trigger] input.files@[i];
                    &&& keeps_file(end.files@[rows.files@.len() + i], file, input)
                    &&& keeps_live(end.live@[rows.live@.len() + i], file, input)
                    &&& end.changes@[rows.changes@.len() + i].snapshot_id == input.snapshot_id
                    &&& end.changes@[rows.changes@.len() + i].file_id == file.file_id
                    &&& end.changes@[rows.changes@.len() + i].change_kind@ == "add"@
                }
            &&& forall|i: int, m: int|
                0 <= i < n && 0 <= m < input.files@[i].metrics@.len() ==> has_metric(
                    end.metrics@,
                    rows.metrics@.len() as int,
                    input.files@[i].file_id,
                    #[trigger] input.files@[i].metrics@[m],
                )
            &&& end.snapshots@.len() == rows.snapshots@.len() + 1
            &&& end.snapshots@.last().row.snapshot_id == input.snapshot_id
            &&& end.snapshots@.last().row.parent_snapshot_id == input.parent_snapshot_id
            &&& end.snapshots@.last().row.sequence_number == input.sequence_number
            &&& end.snapshots@.last().committed_table_version == input.table_version
            &&& end.snapshots@.last().committed_at_ms == input.created_at_ms
            &&& end.snapshots@.last().operation@ == "append"@
            &&& end.snapshots@.last().schema_id == rows.meta.current_schema_id
            &&& end.snapshots@.last().summary_json@ == input.summary_json@
            &&& end.snapshots@.last().metadata_json@ == input.snapshot_metadata_json@
            &&& end.refs@.len() == rows.refs@.len()
            &&& forall|i: int|
                0 <= i < rows.refs@.len() && !is_target(rows.refs@, i, input.target_ref@)
                    ==> #[trigger] end.refs@[i] == rows.refs@[i]
            &&& forall|i: int| #[trigger]
                is_target(rows.refs@, i, input.target_ref@) ==> end.refs@[i].name@
                    == input.target_ref@ && end.refs@[i].ref_type@ == "branch"@
                    && end.refs@[i].snapshot_id == Some(input.snapshot_id)
                    && end.refs@[i].updated_version == input.table_version
                    && end.refs@[i].created_version == rows.refs@[i].created_version
            &&& end.commits@.len() == rows.commits@.len() + 1
            &&& end.commits@.last().table_version == input.table_version
            &&& end.commits@.last().parent_table_version == Some(rows.meta.table_version)
            &&& end.commits@.last().commit_id == input.commit_id
            &&& end.commits@.last().semantic_state == input.semantic_state
            &&& end.commits@.last().sha256 == input.commit_hash
            &&& end.commits@.last().uri@ == input.commit_uri@
            &&& end.commits@.last().operation_json@ == input.operation_json@
            &&& end.commits@.last().result_json@ == input.result_json@
            &&& end.intents@.len() == rows.intents@.len() + 1
            &&& end.intents@.last().key@ == input.idempotency_key@
            &&& end.intents@.last().intent == input.intent_hash
            &&& end.intents@.last().commit_id == input.commit_id
            &&& end.intents@.last().table_version == input.table_version
            &&& end.intents@.last().result_json@ == input.result_json@
            &&& end.meta.table_version == input.table_version
            &&& end.meta.last_sequence_number == input.sequence_number
            &&& end.meta.last_commit_id == input.commit_id
            &&& end.meta.last_commit_sha256 == input.commit_hash
            &&& end.meta.semantic_state == input.semantic_state
            &&& end.meta.table_id == rows.meta.table_id
            &&& end.meta.current_schema_id == rows.meta.current_schema_id
            &&& end.schemas == rows.schemas
        },
{
    lemma_files_fit(input.files@);
    lemma_targets(rows.refs@, input.target_ref@);
    assert(append_check(rows, input) is Ok <==> {
        &&& rows.meta.table_version < 0x7fff_ffff_ffff_ffff
        &&& input.table_version == rows.meta.table_version + 1
        &&& fits(input.sequence_number)
        &&& files_fit(input.files@) is Ok
        &&& branches(rows.refs@, input.target_ref@) == 1
    });
    if let Ok(end) = r {
        assert(appended(end, rows, input));
        lemma_begins(end.files@, rows.files@);
        lemma_begins(end.live@, rows.live@);
        lemma_begins(end.changes@, rows.changes@);
        lemma_begins(end.metrics@, rows.metrics@);
        lemma_begins(end.snapshots@, rows.snapshots@);
        lemma_begins(end.commits@, rows.commits@);
        lemma_begins(end.intents@, rows.intents@);
        let n = input.files@.len();
        assert forall|i: int| 0 <= i < n implies {
            let file = #[trigger] input.files@[i];
            &&& keeps_file(end.files@[rows.files@.len() + i], file, input)
            &&& keeps_live(end.live@[rows.live@.len() + i], file, input)
            &&& end.changes@[rows.changes@.len() + i].snapshot_id == input.snapshot_id
            &&& end.changes@[rows.changes@.len() + i].file_id == file.file_id
            &&& end.changes@[rows.changes@.len() + i].change_kind@ == "add"@
        } by {
            assert(file_row_from(end.files@[rows.files@.len() + i], input.files@[i], input));
            assert(live_row_from(end.live@[rows.live@.len() + i], input.files@[i], input));
            assert(change_row_from(end.changes@[rows.changes@.len() + i], input.files@[i], input));
        }
        assert forall|i: int, m: int|
            0 <= i < n && 0 <= m < input.files@[i].metrics@.len() implies has_metric(
            end.metrics@,
            rows.metrics@.len() as int,
            input.files@[i].file_id,
            #[trigger] input.files@[i].metrics@[m],
        ) by {
            let k = lemma_metric_place(input.files@, i, m);
            let row = end.metrics@[rows.metrics@.len() + k];
            let pair = file_metrics(input.files@)[k];
            assert(metric_row_from(row, pair.0, pair.1));
            assert(keeps_metric(row, input.files@[i].file_id, input.files@[i].metrics@[m]));
        }
        assert forall|i: int|
            0 <= i < rows.refs@.len() && !is_target(
                rows.refs@,
                i,
                input.target_ref@,
            ) implies #[trigger] end.refs@[i] == rows.refs@[i] by {
            assert(moved_ref(end.refs@[i], rows.refs@[i], input));
        }
        assert forall|i: int| #[trigger]
            is_target(rows.refs@, i, input.target_ref@) implies end.refs@[i].name@
            == input.target_ref@ && end.refs@[i].ref_type@ == "branch"@ && end.refs@[i].snapshot_id
            == Some(input.snapshot_id) && end.refs@[i].updated_version == input.table_version
            && end.refs@[i].created_version == rows.refs@[i].created_version by {
            assert(moved_ref(end.refs@[i], rows.refs@[i], input));
        }
    }
}

/// No two keys are the same.
pub open spec fn keys_differ(members: Seq<(Seq<char>, ValueView)>) -> bool {
    forall|i: int, j: int|
        0 <= i < j < members.len() ==> (#[trigger] members[i]).0 != (#[trigger] members[j]).0
}

proof fn lemma_member(members: Seq<(Seq<char>, ValueView)>, i: int)
    requires
        keys_differ(members),
        0 <= i < members.len(),
    ensures
        says(members, members[i].0, members[i].1),
        forall|v: ValueView| #[trigger] says(members, members[i].0, v) ==> v == members[i].1,
{
    assert(members[i] == (members[i].0, members[i].1));
    assert forall|v: ValueView| #[trigger] says(members, members[i].0, v) implies v
        == members[i].1 by {
        let k = choose|k: int|
            {
                &&& 0 <= k < members.len()
                &&& #[trigger] members[k] == (members[i].0, v)
                &&& forall|j: int| 0 <= j < k ==> (#[trigger] members[j]).0 != members[i].0
            };
        if k < i {
            assert(members[k].0 != members[i].0);
        } else if i < k {
            assert(members[i].0 != members[k].0);
        }
    }
}

/// The document of an added file tells what it is and where it was stored.
pub open spec fn tells_file(
    document: ValueView,
    staged: VerifiedStagedFile,
    file: AppendFile,
) -> bool {
    document matches ValueView::Object(members) && {
        &&& says(members, "uri"@, ValueView::Text(staged.uri@))
        &&& says(members, "file_id"@, ValueView::Text(crate::hash::id_text(staged.file_id@)))
        &&& says(
            members,
            "content_sha256"@,
            ValueView::Text(crate::hash::hex_text(file.fingerprint.sha256@)),
        )
        &&& exists|text: Seq<char>| #[trigger]
            writes(text, file.fingerprint.length as int) && says(
                members,
                "file_size_bytes"@,
                ValueView::Text(text),
            )
        &&& exists|text: Seq<char>| #[trigger]
            writes(text, file.record_count as int) && says(
                members,
                "record_count"@,
                ValueView::Text(text),
            )
        &&& exists|text: Seq<char>| #[trigger]
            writes(text, file.schema_id as int) && says(
                members,
                "schema_id"@,
                ValueView::Text(text),
            )
        &&& exists|metrics: Seq<ValueView>|
            metrics.len() == file.metrics@.len() && #[trigger] says(
                members,
                "metrics"@,
                ValueView::Array(metrics),
            )
    }
}

#[verifier::rlimit(40)]
#[verifier::spinoff_prover]
proof fn lemma_file_document(staged: VerifiedStagedFile, file: AppendFile)
    ensures
        tells_file(file_document(staged, file), staged, file),
{
    let members = file_document(staged, file)->Object_0;
    reveal_strlit("content_sha256");
    reveal_strlit("file_format");
    reveal_strlit("file_id");
    reveal_strlit("file_size_bytes");
    reveal_strlit("metadata");
    reveal_strlit("metrics");
    reveal_strlit("object_identity");
    reveal_strlit("partition_spec_id");
    reveal_strlit("partition_values");
    reveal_strlit("record_count");
    reveal_strlit("schema_id");
    reveal_strlit("sort_order_id");
    reveal_strlit("uri");
    assert("file_id"@[0] != "metrics"@[0]);
    assert("file_size_bytes"@[0] != "object_identity"@[0]);
    assert(members[0].0 == "content_sha256"@ && members[0].0.len() == 14);
    assert(members[1].0 == "file_format"@ && members[1].0.len() == 11);
    assert(members[2].0 == "file_id"@ && members[2].0.len() == 7);
    assert(members[3].0 == "file_size_bytes"@ && members[3].0.len() == 15);
    assert(members[4].0 == "metadata"@ && members[4].0.len() == 8);
    assert(members[5].0 == "metrics"@ && members[5].0.len() == 7);
    assert(members[6].0 == "object_identity"@ && members[6].0.len() == 15);
    assert(members[7].0 == "partition_spec_id"@ && members[7].0.len() == 17);
    assert(members[8].0 == "partition_values"@ && members[8].0.len() == 16);
    assert(members[9].0 == "record_count"@ && members[9].0.len() == 12);
    assert(members[10].0 == "schema_id"@ && members[10].0.len() == 9);
    assert(members[11].0 == "sort_order_id"@ && members[11].0.len() == 13);
    assert(members[12].0 == "uri"@ && members[12].0.len() == 3);
    assert(members.len() == 13);
    assert forall|i: int, j: int| 0 <= i < j < members.len() implies (#[trigger] members[i]).0 != (
    #[trigger] members[j]).0 by {
        assert(i == 0 || i == 1 || i == 2 || i == 3 || i == 4 || i == 5 || i == 6 || i == 7 || i == 8 || i == 9 || i == 10 || i == 11 || i == 12);
        assert(j == 0 || j == 1 || j == 2 || j == 3 || j == 4 || j == 5 || j == 6 || j == 7 || j == 8 || j == 9 || j == 10 || j == 11 || j == 12);
    }
    lemma_member(members, 0);
    lemma_member(members, 2);
    lemma_member(members, 3);
    lemma_member(members, 5);
    lemma_member(members, 9);
    lemma_member(members, 10);
    lemma_member(members, 12);
    lemma_decimal_writes(file.fingerprint.length as nat);
    lemma_decimal_writes(file.record_count as nat);
    lemma_decimal_writes(file.schema_id as nat);
    assert(writes(decimal(file.fingerprint.length as nat), file.fingerprint.length as int));
    assert(writes(decimal(file.record_count as nat), file.record_count as int));
    assert(writes(decimal(file.schema_id as nat), file.schema_id as int));
}

/// The operation of an append names its target, adds the files one by one, and says
/// that it commits a snapshot.
pub open spec fn tells_append(
    operation: ValueView,
    request: AppendRequest,
    staged: Seq<VerifiedStagedFile>,
) -> bool {
    operation matches ValueView::Object(members) && {
        &&& says(members, "target_ref"@, ValueView::Text(request.target_ref@))
        &&& says(members, "type"@, ValueView::Text("commit_snapshot"@))
        &&& exists|files: Seq<ValueView>|
            {
                &&& #[trigger] says(members, "added_files"@, ValueView::Array(files))
                &&& files.len() == request.files@.len()
                &&& forall|i: int|
                    0 <= i < files.len() ==> tells_file(
                        #[trigger] files[i],
                        staged[i],
                        request.files@[i],
                    )
            }
    }
}

#[verifier::rlimit(40)]
#[verifier::spinoff_prover]
proof fn lemma_append_document(
    request: AppendRequest,
    staged: Seq<VerifiedStagedFile>,
    parent: ParentFacts,
    snapshot_id: Id,
    summary: Seq<(Seq<char>, ValueView)>,
    name: Seq<char>,
)
    ensures
        tells_append(
            append_document(request, staged, parent, snapshot_id, summary),
            request,
            staged,
        ),
        leaves_alone(name, append_document(request, staged, parent, snapshot_id, summary)),
{
    let operation = append_document(request, staged, parent, snapshot_id, summary);
    let members = operation->Object_0;
    reveal_strlit("added_files");
    reveal_strlit("operation_id");
    reveal_strlit("rebase_mode");
    reveal_strlit("removed_file_ids");
    reveal_strlit("scan_projection");
    reveal_strlit("snapshot");
    reveal_strlit("target_ref");
    reveal_strlit("type");
    reveal_strlit("commit_snapshot");
    reveal_strlit("set_current_schema");
    assert("added_files"@[0] != "rebase_mode"@[0]);
    assert(members[0].0 == "added_files"@ && members[0].0.len() == 11);
    assert(members[1].0 == "operation_id"@ && members[1].0.len() == 12);
    assert(members[2].0 == "rebase_mode"@ && members[2].0.len() == 11);
    assert(members[3].0 == "removed_file_ids"@ && members[3].0.len() == 16);
    assert(members[4].0 == "scan_projection"@ && members[4].0.len() == 15);
    assert(members[5].0 == "snapshot"@ && members[5].0.len() == 8);
    assert(members[6].0 == "target_ref"@ && members[6].0.len() == 10);
    assert(members[7].0 == "type"@ && members[7].0.len() == 4);
    assert(members.len() == 8);
    assert forall|i: int, j: int| 0 <= i < j < members.len() implies (#[trigger] members[i]).0 != (
    #[trigger] members[j]).0 by {
        assert(i == 0 || i == 1 || i == 2 || i == 3 || i == 4 || i == 5 || i == 6 || i == 7);
        assert(j == 0 || j == 1 || j == 2 || j == 3 || j == 4 || j == 5 || j == 6 || j == 7);
    }
    lemma_member(members, 0);
    lemma_member(members, 6);
    lemma_member(members, 7);
    let files = file_documents(staged, request.files@);
    assert(says(members, "added_files"@, ValueView::Array(files)));
    assert forall|i: int| 0 <= i < files.len() implies tells_file(
        #[trigger] files[i],
        staged[i],
        request.files@[i],
    ) by {
        lemma_file_document(staged[i], request.files@[i]);
    }
    assert("commit_snapshot"@.len() != "set_current_schema"@.len());
    assert(members[7] == ("type"@, ValueView::Text("commit_snapshot"@)));
    assert(!says(members, "type"@, ValueView::Text("set_current_schema"@)));
}

/// The commit of an append is the next version of the table, with the next sequence
/// number and the request's key; its one operation tells the append, and stands in
/// nobody's way. It cannot be prepared where a number has run out.
pub proof fn lemma_append_is_prepared<C: DocumentCodec>(
    codec: C,
    request: AppendRequest,
    staged: Vec<VerifiedStagedFile>,
    logical_hash: Sha256,
    parent: ParentFacts,
    commit_id: Id,
    snapshot_id: Id,
    created_at_ms: i64,
    r: Result<PreparedAppend, RuntimeError>,
)
    requires
        call_ensures(
            prepare_append::<C>,
            (
                &codec,
                &request,
                &staged,
                logical_hash,
                &parent,
                commit_id,
                snapshot_id,
                created_at_ms,
            ),
            r,
        ),
    ensures
        r matches Ok(p) ==> {
            &&& p.commit.table_version == parent.head.table_version + 1
            &&& p.commit.parent_table_version == Some(parent.head.table_version)
            &&& p.commit.table_id == parent.head.table_id
            &&& p.commit.commit_id == commit_id
            &&& p.commit.parent_commit == Some(parent.head.semantic_commit)
            &&& p.commit.created_at_ms == created_at_ms
            &&& p.commit.previous_semantic_state_sha256 == Some(parent.head.semantic_state_sha256)
            &&& p.commit.intents@.len() == 1
            &&& p.commit.intents@[0].key@ == request.idempotency_key@
            &&& p.commit.intents@[0].intent_sha256 == logical_hash
            &&& p.result.table_version == parent.head.table_version + 1
            &&& p.result.sequence_number == parent.last_sequence + 1
            &&& p.result.commit_id == commit_id
            &&& p.result.snapshot_id == snapshot_id
            &&& p.result.target_ref@ == request.target_ref@
            &&& p.result.files@.len() == staged@.len()
            &&& forall|i: int|
                0 <= i < staged@.len() ==> (#[trigger] p.result.files@[i]).file_id
                    == staged@[i].file_id && p.result.files@[i].uri@ == staged@[i].uri@
            &&& values_view(p.commit.operations@).len() == 1
            &&& tells_append(values_view(p.commit.operations@)[0], request, staged@)
            &&& forall|name: Seq<char>| #[trigger]
                all_leave_alone(name, values_view(p.commit.operations@))
        },
        parent.head.table_version == u64::MAX || parent.last_sequence == u64::MAX || !(records_of(
            request.files@,
        ) <= 0x7fff_ffff_ffff_ffff && bytes_of(request.files@) <= 0x7fff_ffff_ffff_ffff) ==> r
            is Err,
{
    crate::laws::accepted_appends::lemma_totals(request.files@);
    if let Ok(p) = r {
        let summary = crate::value::members_view(p.summary@);
        let operation = append_document(request, staged@, parent, p.result.snapshot_id, summary);
        let all = values_view(p.commit.operations@);
        assert(all == seq![operation]);
        assert(all[0] == operation);
        assert forall|name: Seq<char>| #[trigger] all_leave_alone(name, all) by {
            lemma_append_document(request, staged@, parent, p.result.snapshot_id, summary, name);
        }
        lemma_append_document(
            request,
            staged@,
            parent,
            p.result.snapshot_id,
            summary,
            Seq::empty(),
        );
    }
}

} // verus!

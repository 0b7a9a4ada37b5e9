//! From a request to the rows of a table: what an append stores, and which requests
//! count as the same.
use crate::append::{AppendFile, AppendRequest, FileMetric, VerifiedStagedFile};
use crate::append_image::{
    append_image, append_image_is, image_file_is, image_metric_is, RowCodec,
};
use crate::append_rows::{apply_append, AppendImage};
use crate::candidate::{
    count_value, metric_document, metric_documents, ParentFacts, PreparedAppend,
};
use crate::error::RuntimeError;
use crate::hash::{hex_text, lemma_same_digest};
use crate::intent::{
    intent_document, logical_file_document, logical_file_documents, logical_intent,
};
use crate::laws::accepted_appends::{file_facts, metric_facts};
use crate::laws::stored_appends::lemma_append_is_stored;
use crate::tables::ImageRows;
use crate::text::lemma_decimal_injective;
use crate::value::{members_view, CanonicalValue};
use vstd::prelude::*;

verus! {

// ------------------------------------------------------------ what is stored

/// A request is stored file by file: what was staged for each file, with what the
/// request says of it, live on the target of the request; the snapshot stands behind
/// the one that the writer started from, and the key leads to the commit.
pub proof fn lemma_request_is_stored<C: RowCodec>(
    codec: C,
    request: AppendRequest,
    staged: Vec<VerifiedStagedFile>,
    parent: ParentFacts,
    prepared: PreparedAppend,
    image: AppendImage,
    rows: ImageRows,
    end: ImageRows,
)
    requires
        staged@.len() == request.files@.len(),
        prepared.commit.intents@.len() > 0,
        call_ensures(
            append_image::<C>,
            (&codec, &request, &staged, &parent, &prepared),
            Ok::<AppendImage, RuntimeError>(image),
        ),
        call_ensures(apply_append, (rows, &image), Ok::<ImageRows, RuntimeError>(end)),
    ensures
        end.meta.table_version == prepared.commit.table_version,
        end.meta.semantic_state == prepared.commit.semantic_state_sha256,
        end.meta.last_commit_id == prepared.commit.commit_id,
        end.meta.last_commit_sha256@ == crate::hash::sha256_of(prepared.commit_bytes@),
        end.meta.last_sequence_number == prepared.result.sequence_number,
        end.snapshots@.last().row.snapshot_id == prepared.result.snapshot_id,
        end.snapshots@.last().row.parent_snapshot_id == parent.snapshot_id,
        end.snapshots@.last().row.sequence_number == prepared.result.sequence_number,
        end.intents@.last().key@ == prepared.commit.intents@[0].key@,
        end.intents@.last().intent == prepared.commit.intents@[0].intent_sha256,
        end.intents@.last().commit_id == prepared.commit.commit_id,
        end.files@.len() == rows.files@.len() + request.files@.len(),
        forall|i: int|
            0 <= i < request.files@.len() ==> {
                let file = #[trigger] request.files@[i];
                let row = end.files@[rows.files@.len() + i];
                let live = end.live@[rows.live@.len() + i];
                &&& row.file_id == staged@[i].file_id
                &&& row.uri@ == staged@[i].uri@
                &&& row.file_size_bytes == staged@[i].length
                &&& row.content_sha256 == Some(staged@[i].sha256)
                &&& row.record_count == file.record_count
                &&& row.schema_id == file.schema_id
                &&& row.partition_spec_id == file.partition_spec_id
                &&& row.sort_order_id == Some(file.sort_order_id as i64)
                &&& row.created_snapshot_id == prepared.result.snapshot_id
                &&& live.ref_name@ == request.target_ref@
                &&& live.file_id == staged@[i].file_id
                &&& live.added_snapshot_id == prepared.result.snapshot_id
            },
{
    assert(append_image_is(codec, image, request, staged@, parent, prepared));
    lemma_append_is_stored(rows, image, Ok(end));
    assert forall|i: int| 0 <= i < request.files@.len() implies {
        let file = #[trigger] request.files@[i];
        let row = end.files@[rows.files@.len() + i];
        let live = end.live@[rows.live@.len() + i];
        &&& row.file_id == staged@[i].file_id
        &&& row.uri@ == staged@[i].uri@
        &&& row.file_size_bytes == staged@[i].length
        &&& row.content_sha256 == Some(staged@[i].sha256)
        &&& row.record_count == file.record_count
        &&& row.schema_id == file.schema_id
        &&& row.partition_spec_id == file.partition_spec_id
        &&& row.sort_order_id == Some(file.sort_order_id as i64)
        &&& row.created_snapshot_id == prepared.result.snapshot_id
        &&& live.ref_name@ == request.target_ref@
        &&& live.file_id == staged@[i].file_id
        &&& live.added_snapshot_id == prepared.result.snapshot_id
    } by {
        assert(image_file_is(codec, image.files@[i], request.files@[i], staged@[i]));
    }
}

/// The metrics of a request reach the rows as they are: each count, and the bounds in
/// the form in which they are stored.
pub proof fn lemma_metrics_are_taken_over<C: RowCodec>(
    codec: C,
    request: AppendRequest,
    staged: Vec<VerifiedStagedFile>,
    parent: ParentFacts,
    prepared: PreparedAppend,
    image: AppendImage,
    i: int,
    m: int,
)
    requires
        staged@.len() == request.files@.len(),
        prepared.commit.intents@.len() > 0,
        call_ensures(
            append_image::<C>,
            (&codec, &request, &staged, &parent, &prepared),
            Ok::<AppendImage, RuntimeError>(image),
        ),
        0 <= i < request.files@.len(),
        0 <= m < request.files@[i].metrics@.len(),
    ensures
        image.files@.len() == request.files@.len(),
        image.files@[i].metrics@.len() == request.files@[i].metrics@.len(),
        ({
            let metric = request.files@[i].metrics@[m];
            let out = image.files@[i].metrics@[m];
            &&& out.field_id == metric.field_id
            &&& out.column_size_bytes == metric.column_size_bytes
            &&& out.value_count == metric.value_count
            &&& out.null_count == metric.null_count
            &&& out.nan_count == metric.nan_count
            &&& out.distinct_count == metric.distinct_count
            &&& match metric.lower_bound {
                None => out.lower_bound_cbor is None,
                Some(bound) => out.lower_bound_cbor matches Some(cbor) && cbor@ == bound.cbor@,
            }
            &&& match metric.upper_bound {
                None => out.upper_bound_cbor is None,
                Some(bound) => out.upper_bound_cbor matches Some(cbor) && cbor@ == bound.cbor@,
            }
        }),
{
    assert(image_file_is(codec, image.files@[i], request.files@[i], staged@[i]));
    assert(image_metric_is(
        codec,
        image.files@[i].metrics@[m],
        request.files@[i].metrics@[m],
    ));
}

// ------------------------------------------------------------ which are the same

/// The requests ask for the same, wherever their files are read from.
pub open spec fn same_request(a: AppendRequest, b: AppendRequest) -> bool {
    &&& a.target_ref@ == b.target_ref@
    &&& members_view(a.summary@) == members_view(b.summary@)
    &&& members_view(a.commit_metadata@) == members_view(b.commit_metadata@)
    &&& members_view(a.snapshot_metadata@) == members_view(b.snapshot_metadata@)
    &&& a.files@.len() == b.files@.len()
    &&& forall|i: int|
        0 <= i < a.files@.len() ==> file_facts(#[trigger] a.files@[i]) == file_facts(b.files@[i])
}

proof fn lemma_counts(a: Option<u64>, b: Option<u64>)
    requires
        count_value(a) == count_value(b),
    ensures
        a == b,
{
    if let Some(n) = a {
        if let Some(m) = b {
            lemma_decimal_injective(n as nat, m as nat);
        }
    }
}

/// The bounds say the same. A bound that says nothing is like none.
pub open spec fn same_bounds(a: FileMetric, b: FileMetric) -> bool {
    &&& crate::candidate::bound_value(a.lower_bound) == crate::candidate::bound_value(b.lower_bound)
    &&& crate::candidate::bound_value(a.upper_bound) == crate::candidate::bound_value(b.upper_bound)
}

proof fn lemma_metric_documents(a: FileMetric, b: FileMetric)
    ensures
        metric_document(a) == metric_document(b) ==> {
            &&& a.field_id == b.field_id
            &&& a.column_size_bytes == b.column_size_bytes
            &&& a.value_count == b.value_count
            &&& a.null_count == b.null_count
            &&& a.nan_count == b.nan_count
            &&& a.distinct_count == b.distinct_count
            &&& same_bounds(a, b)
            &&& members_view(a.metadata@) == members_view(b.metadata@)
        },
        metric_facts(a) == metric_facts(b) ==> metric_document(a) == metric_document(b),
{
    let x = metric_document(a)->Object_0;
    let y = metric_document(b)->Object_0;
    if metric_document(a) == metric_document(b) {
        assert(x[0].1 == y[0].1 && x[1].1 == y[1].1 && x[2].1 == y[2].1 && x[3].1 == y[3].1 && x[4].1
            == y[4].1 && x[5].1 == y[5].1 && x[6].1 == y[6].1 && x[7].1 == y[7].1 && x[8].1
            == y[8].1);
        lemma_counts(a.column_size_bytes, b.column_size_bytes);
        lemma_counts(a.value_count, b.value_count);
        lemma_counts(a.null_count, b.null_count);
        lemma_counts(a.nan_count, b.nan_count);
        lemma_counts(a.distinct_count, b.distinct_count);
        lemma_decimal_injective(a.field_id as nat, b.field_id as nat);
    }
    if metric_facts(a) == metric_facts(b) {
        let p = metric_facts(a).counts;
        let q = metric_facts(b).counts;
        assert(p[0] == q[0] && p[1] == q[1] && p[2] == q[2] && p[3] == q[3] && p[4] == q[4]);
        assert(x =~= y);
    }
}

proof fn lemma_digests(a: crate::hash::Sha256, b: crate::hash::Sha256)
    requires
        hex_text(a@) == hex_text(b@),
    ensures
        a == b,
{
    let x = hex_text(a@);
    let y = hex_text(b@);
    assert(a@.len() == 32 && b@.len() == 32);
    assert forall|i: int| 0 <= i < 32 implies #[trigger] a@[i] == b@[i] by {
        assert(x[2 * i] == y[2 * i] && x[2 * i + 1] == y[2 * i + 1]);
        assert((2 * i) / 2 == i && (2 * i) % 2 == 0);
        assert((2 * i + 1) / 2 == i && (2 * i + 1) % 2 == 1);
    }
    assert(a@ =~= b@);
    lemma_same_digest(a, b);
}

/// What the documents of two files have in common where they are the same.
pub open spec fn same_file(a: AppendFile, b: AppendFile) -> bool {
    &&& a.fingerprint.sha256 == b.fingerprint.sha256
    &&& a.fingerprint.length == b.fingerprint.length
    &&& a.format == b.format
    &&& a.record_count == b.record_count
    &&& a.schema_id == b.schema_id
    &&& a.partition_spec_id == b.partition_spec_id
    &&& a.sort_order_id == b.sort_order_id
    &&& members_view(a.partition_values@) == members_view(b.partition_values@)
    &&& members_view(a.metadata@) == members_view(b.metadata@)
    &&& a.metrics@.len() == b.metrics@.len()
    &&& forall|m: int|
        0 <= m < a.metrics@.len() ==> {
            let x = #[trigger] a.metrics@[m];
            let y = b.metrics@[m];
            &&& x.field_id == y.field_id
            &&& x.column_size_bytes == y.column_size_bytes
            &&& x.value_count == y.value_count
            &&& x.null_count == y.null_count
            &&& x.nan_count == y.nan_count
            &&& x.distinct_count == y.distinct_count
            &&& same_bounds(x, y)
            &&& members_view(x.metadata@) == members_view(y.metadata@)
        }
}

proof fn lemma_file_documents(a: AppendFile, b: AppendFile)
    ensures
        logical_file_document(a) == logical_file_document(b) ==> same_file(a, b),
        file_facts(a) == file_facts(b) ==> logical_file_document(a) == logical_file_document(b),
{
    let x = logical_file_document(a)->Object_0;
    let y = logical_file_document(b)->Object_0;
    let p = metric_documents(a.metrics@);
    let q = metric_documents(b.metrics@);
    if logical_file_document(a) == logical_file_document(b) {
        assert(x[0].1 == y[0].1 && x[1].1 == y[1].1 && x[2].1 == y[2].1 && x[3].1 == y[3].1 && x[4].1
            == y[4].1 && x[5].1 == y[5].1 && x[6].1 == y[6].1 && x[7].1 == y[7].1 && x[8].1
            == y[8].1 && x[9].1 == y[9].1);
        lemma_decimal_injective(a.fingerprint.length as nat, b.fingerprint.length as nat);
        lemma_digests(a.fingerprint.sha256, b.fingerprint.sha256);
        lemma_decimal_injective(a.partition_spec_id as nat, b.partition_spec_id as nat);
        lemma_decimal_injective(a.record_count as nat, b.record_count as nat);
        lemma_decimal_injective(a.schema_id as nat, b.schema_id as nat);
        lemma_decimal_injective(a.sort_order_id as nat, b.sort_order_id as nat);
        assert(p == q);
        assert(p.len() == a.metrics@.len() && q.len() == b.metrics@.len());
        assert forall|m: int| 0 <= m < a.metrics@.len() implies {
            let x = #[trigger] a.metrics@[m];
            let y = b.metrics@[m];
            &&& x.field_id == y.field_id
            &&& x.column_size_bytes == y.column_size_bytes
            &&& x.value_count == y.value_count
            &&& x.null_count == y.null_count
            &&& x.nan_count == y.nan_count
            &&& x.distinct_count == y.distinct_count
            &&& same_bounds(x, y)
            &&& members_view(x.metadata@) == members_view(y.metadata@)
        } by {
            assert(p[m] == q[m]);
            lemma_metric_documents(a.metrics@[m], b.metrics@[m]);
        }
    }
    if file_facts(a) == file_facts(b) {
        let fa = file_facts(a).metrics;
        let fb = file_facts(b).metrics;
        assert(fa.len() == a.metrics@.len() && fb.len() == b.metrics@.len());
        assert(p =~= q) by {
            assert forall|m: int| 0 <= m < p.len() implies p[m] == q[m] by {
                assert(fa[m] == fb[m]);
                lemma_metric_documents(a.metrics@[m], b.metrics@[m]);
            }
        }
        assert(x =~= y);
    }
}

/// Requests that ask for the same have the same intent, whatever their keys and
/// wherever their files are read from. Requests of one intent go to one ref with the
/// same summary and metadata, and their files are the same, one by one, in all that
/// is said of them.
pub proof fn lemma_intent_is_what_is_asked(
    a: AppendRequest,
    b: AppendRequest,
    x: CanonicalValue,
    y: CanonicalValue,
)
    requires
        call_ensures(logical_intent, (&a,), x),
        call_ensures(logical_intent, (&b,), y),
    ensures
        same_request(a, b) ==> x@ == y@,
        x@ == y@ ==> {
            &&& a.target_ref@ == b.target_ref@
            &&& members_view(a.summary@) == members_view(b.summary@)
            &&& members_view(a.commit_metadata@) == members_view(b.commit_metadata@)
            &&& members_view(a.snapshot_metadata@) == members_view(b.snapshot_metadata@)
            &&& a.files@.len() == b.files@.len()
            &&& forall|i: int|
                0 <= i < a.files@.len() ==> same_file(#[trigger] a.files@[i], b.files@[i])
        },
{
    let da = intent_document(a)->Object_0;
    let db = intent_document(b)->Object_0;
    let fa = logical_file_documents(a.files@);
    let fb = logical_file_documents(b.files@);
    assert(fa.len() == a.files@.len() && fb.len() == b.files@.len());
    if same_request(a, b) {
        assert(fa =~= fb) by {
            assert forall|i: int| 0 <= i < fa.len() implies fa[i] == fb[i] by {
                assert(file_facts(a.files@[i]) == file_facts(b.files@[i]));
                lemma_file_documents(a.files@[i], b.files@[i]);
            }
        }
        assert(da =~= db);
    }
    if x@ == y@ {
        assert(da[0].1 == db[0].1 && da[1].1 == db[1].1 && da[2].1 == db[2].1 && da[4].1
            == db[4].1 && da[5].1 == db[5].1);
        assert(fa == fb);
        assert forall|i: int| 0 <= i < a.files@.len() implies same_file(
            #[trigger] a.files@[i],
            b.files@[i],
        ) by {
            assert(fa[i] == fb[i]);
            lemma_file_documents(a.files@[i], b.files@[i]);
        }
    }
}

} // verus!

//! What retained commits make of a table when they are replayed.
use crate::append_rows::{apply_append, AppendImage, ImageFile, ImageMetric};
use crate::documents::{ObjectReference, SemanticCommit};
use crate::error::RuntimeError;
use crate::history::{
    history_entries, tips, uri_refused, verification_starts, verification_step, HistoryEntry,
    TextCodec, VerificationScope, VerificationStep,
};
use crate::catalog::RefRow;
use crate::laws::carried_appends::{lemma_says, says};
use crate::laws::stored_appends::{begins_with, fits, lemma_append_is_stored};
use crate::projection::{CommittedData, CommittedMetric, CommittedSnapshot};
use crate::replay::{
    apply_metadata, check_durable_result, keeps_version, replay_append, replay_files_check,
    replay_genesis_schema, replay_kind, replayed_file, replayed_metric, ReplayKind,
    ReplayedCommit,
};
use crate::tables::{CommitRow, ImageRows, MetaRow, SnapshotRecord};
use crate::value::{CanonicalValue, ValueView};
use vstd::prelude::*;

verus! {

/// A commit is replayed exactly on the version before it; as an append exactly if its
/// operation says that it commits a snapshot.
pub proof fn lemma_commit_is_replayed_in_turn(
    version: i64,
    commit: SemanticCommit,
    r: Result<ReplayKind, RuntimeError>,
)
    requires
        commit.operations@.len() > 0,
        call_ensures(replay_kind, (version, &commit), r),
    ensures
        r is Ok <==> version < 0x7fff_ffff_ffff_ffff && commit.table_version == version + 1,
        r matches Ok(kind) ==> (kind is Append <==> (commit.operations@[0]@
            matches ValueView::Object(members) && says(
            members,
            "type"@,
            ValueView::Text("commit_snapshot"@),
        ))),
{
    if let ValueView::Object(members) = commit.operations@[0]@ {
        lemma_says(members, "type"@, ValueView::Text("commit_snapshot"@));
    }
}

/// A version is that of a commit exactly if the numbers are the same; a result is the
/// recorded one exactly if they say the same.
pub proof fn lemma_replayed_facts(
    version: i64,
    commit: SemanticCommit,
    same: bool,
    result: CanonicalValue,
    recorded: CanonicalValue,
    r: Result<(), RuntimeError>,
)
    requires
        call_ensures(keeps_version, (version, &commit), same),
        call_ensures(check_durable_result, (&result, &recorded), r),
    ensures
        same <==> version == commit.table_version,
        r is Ok <==> result@ == recorded@,
{
}

/// The first commit gives the table its schema: what its operation says under that
/// name.
pub proof fn lemma_genesis_gives_the_schema(
    commit: SemanticCommit,
    r: Result<&CanonicalValue, RuntimeError>,
)
    requires
        commit.operations@.len() > 0,
        call_ensures(replay_genesis_schema, (&commit,), r),
    ensures
        r matches Ok(schema) ==> commit.table_version == 0 && (commit.operations@[0]@
            matches ValueView::Object(members) && says(members, "schema"@, schema@)),
        commit.table_version == 0 && (commit.operations@[0]@ matches ValueView::Object(members)
            && exists|value: ValueView| says(members, "schema"@, value)) ==> r is Ok,
{
    if let ValueView::Object(members) = commit.operations@[0]@ {
        if let Ok(schema) = r {
            lemma_says(members, "schema"@, schema@);
        }
        if exists|value: ValueView| says(members, "schema"@, value) {
            let value = choose|value: ValueView| says(members, "schema"@, value);
            lemma_says(members, "schema"@, value);
        }
    }
}

/// The replayed metric is the committed one.
pub open spec fn same_metric(out: ImageMetric, metric: CommittedMetric) -> bool {
    &&& out.field_id == metric.field_id
    &&& out.column_size_bytes == metric.column_size_bytes
    &&& out.value_count == metric.value_count
    &&& out.null_count == metric.null_count
    &&& out.nan_count == metric.nan_count
    &&& out.distinct_count == metric.distinct_count
    &&& out.lower_bound_cbor == metric.lower_bound_cbor
    &&& out.upper_bound_cbor == metric.upper_bound_cbor
    &&& out.metadata_json == metric.metadata_json
}

/// The replayed file is the committed one.
pub open spec fn same_file(out: ImageFile, file: CommittedData) -> bool {
    &&& out.file_id == file.file_id
    &&& out.uri == file.uri
    &&& out.file_size_bytes == file.file_size_bytes
    &&& out.record_count == file.record_count
    &&& out.schema_id == file.schema_id
    &&& out.partition_spec_id == 0
    &&& out.sort_order_id == 0
    &&& out.content_sha256 == file.content_sha256
    &&& out.partition_values_cbor == file.partition_values_cbor
    &&& out.partition_hash == file.partition_hash
    &&& out.metadata_json == file.metadata_json
    &&& out.metrics@.len() == file.metrics@.len()
    &&& forall|m: int|
        0 <= m < out.metrics@.len() ==> same_metric(#[trigger] out.metrics@[m], file.metrics@[m])
}

/// The identifiers of a committed file can be held in four bytes.
pub open spec fn small(file: CommittedData) -> bool {
    &&& file.schema_id <= 0xffff_ffff
    &&& forall|m: int|
        0 <= m < file.metrics@.len() ==> (#[trigger] file.metrics@[m]).field_id <= 0xffff_ffff
}

proof fn lemma_small(files: Seq<CommittedData>)
    ensures
        replay_files_check(files) is Ok <==> forall|i: int|
            0 <= i < files.len() ==> small(#[trigger] files[i]),
    decreases files.len(),
{
    if files.len() > 0 {
        let rest = files.skip(1);
        lemma_small(rest);
        assert forall|i: int| 0 < i < files.len() implies #[trigger] files[i] == rest[i - 1] by {}
        assert(crate::replay::replay_file_check(files[0]) is Ok <==> small(files[0]));
        if forall|i: int| 0 <= i < files.len() ==> small(#[trigger] files[i]) {
            assert forall|i: int| 0 <= i < rest.len() implies small(#[trigger] rest[i]) by {
                assert(rest[i] == files[i + 1]);
            }
        }
        if replay_files_check(files) is Ok {
            assert forall|i: int| 0 <= i < files.len() implies small(#[trigger] files[i]) by {
                if i > 0 {
                    assert(small(rest[i - 1]));
                }
            }
        }
    }
}

/// A retained append can be replayed exactly if its identifiers fit and it has a
/// summary. What it stores in a table is what its commit says: its files, live on its
/// target, its snapshot behind its parent, and the request under its key.
pub proof fn lemma_retained_append_is_stored_again(
    commit: ReplayedCommit,
    snapshot: CommittedSnapshot,
    r: Result<AppendImage, RuntimeError>,
    rows: ImageRows,
    stored: Result<ImageRows, RuntimeError>,
)
    requires
        call_ensures(replay_append, (commit, snapshot), r),
        r matches Ok(image) ==> call_ensures(apply_append, (rows, &image), stored),
    ensures
        r is Ok <==> snapshot.summary is Some && forall|i: int|
            0 <= i < snapshot.added_files@.len() ==> small(#[trigger] snapshot.added_files@[i]),
        r matches Ok(image) ==> {
            &&& image.table_version == commit.table_version
            &&& image.created_at_ms == commit.created_at_ms
            &&& image.sequence_number == snapshot.sequence_number
            &&& image.target_ref == snapshot.target_ref
            &&& image.files@.len() == snapshot.added_files@.len()
            &&& forall|i: int|
                0 <= i < image.files@.len() ==> same_file(
                    #[trigger] image.files@[i],
                    snapshot.added_files@[i],
                )
            &&& snapshot.summary == Some(image.summary)
        },
        r is Ok ==> (stored matches Ok(end) ==> {
            let n = snapshot.added_files@.len();
            &&& commit.table_version == rows.meta.table_version + 1
            &&& end.meta.table_version == commit.table_version
            &&& end.meta.semantic_state == commit.semantic_state
            &&& end.meta.last_commit_id == commit.commit_id
            &&& end.meta.last_commit_sha256 == commit.commit_hash
            &&& end.meta.last_sequence_number == snapshot.sequence_number
            &&& end.snapshots@.last().row.snapshot_id == snapshot.snapshot_id
            &&& end.snapshots@.last().row.parent_snapshot_id == snapshot.parent_snapshot_id
            &&& end.snapshots@.last().row.sequence_number == snapshot.sequence_number
            &&& end.snapshots@.last().summary_json@ == snapshot.summary_json@
            &&& end.snapshots@.last().metadata_json@ == snapshot.metadata_json@
            &&& end.files@.len() == rows.files@.len() + n
            &&& forall|i: int|
                0 <= i < n ==> {
                    let file = #[trigger] snapshot.added_files@[i];
                    let row = end.files@[rows.files@.len() + i];
                    let live = end.live@[rows.live@.len() + i];
                    &&& row.file_id == file.file_id
                    &&& row.uri@ == file.uri@
                    &&& row.file_size_bytes == file.file_size_bytes
                    &&& row.record_count == file.record_count
                    &&& row.schema_id == file.schema_id
                    &&& row.content_sha256 == Some(file.content_sha256)
                    &&& row.created_snapshot_id == snapshot.snapshot_id
                    &&& row.created_version == commit.table_version
                    &&& live.ref_name@ == snapshot.target_ref@
                    &&& live.file_id == file.file_id
                    &&& live.added_snapshot_id == snapshot.snapshot_id
                }
            &&& end.commits@.last().commit_id == commit.commit_id
            &&& end.commits@.last().uri@ == commit.commit_uri@
            &&& end.commits@.last().sha256 == commit.commit_hash
            &&& end.commits@.last().operation_json@ == commit.operation_json@
            &&& end.commits@.last().result_json@ == commit.result_json@
            &&& end.intents@.last().key@ == commit.idempotency_key@
            &&& end.intents@.last().intent == commit.intent_hash
            &&& end.intents@.last().result_json@ == commit.result_json@
        }),
{
    lemma_small(snapshot.added_files@);
    if let Ok(image) = r {
        assert forall|i: int| 0 <= i < image.files@.len() implies same_file(
            #[trigger] image.files@[i],
            snapshot.added_files@[i],
        ) by {
            let out = image.files@[i];
            let file = snapshot.added_files@[i];
            assert(replayed_file(out, file));
            assert forall|m: int| 0 <= m < out.metrics@.len() implies same_metric(
                #[trigger] out.metrics@[m],
                file.metrics@[m],
            ) by {
                assert(replayed_metric(out.metrics@[m], file.metrics@[m]));
            }
        }
        lemma_append_is_stored(rows, image, stored);
        if let Ok(end) = stored {
            assert forall|i: int| 0 <= i < snapshot.added_files@.len() implies {
                let file = #[trigger] snapshot.added_files@[i];
                let row = end.files@[rows.files@.len() + i];
                let live = end.live@[rows.live@.len() + i];
                &&& row.file_id == file.file_id
                &&& row.uri@ == file.uri@
                &&& row.file_size_bytes == file.file_size_bytes
                &&& row.record_count == file.record_count
                &&& row.schema_id == file.schema_id
                &&& row.content_sha256 == Some(file.content_sha256)
                &&& row.created_snapshot_id == snapshot.snapshot_id
                &&& row.created_version == commit.table_version
                &&& live.ref_name@ == snapshot.target_ref@
                &&& live.file_id == file.file_id
                &&& live.added_snapshot_id == snapshot.snapshot_id
            } by {
                assert(same_file(image.files@[i], snapshot.added_files@[i]));
            }
        }
    }
}

/// A commit of a transaction is remembered: with its version, its state and its
/// result, under the key of its request. The other rows stay.
pub proof fn lemma_transaction_is_remembered(
    rows: ImageRows,
    commit: ReplayedCommit,
    r: Result<ImageRows, RuntimeError>,
)
    requires
        call_ensures(apply_metadata, (rows, commit), r),
    ensures
        r is Ok <==> fits(commit.table_version),
        r matches Ok(end) ==> {
            &&& begins_with(end.commits@, rows.commits@)
            &&& begins_with(end.intents@, rows.intents@)
            &&& end.commits@.len() == rows.commits@.len() + 1
            &&& end.intents@.len() == rows.intents@.len() + 1
            &&& end.commits@.last().table_version == commit.table_version
            &&& end.commits@.last().parent_table_version == Some((commit.table_version - 1) as i64)
            &&& end.commits@.last().commit_id == commit.commit_id
            &&& end.commits@.last().created_at_ms == commit.created_at_ms
            &&& end.commits@.last().intent_count == 1
            &&& end.commits@.last().semantic_state == commit.semantic_state
            &&& end.commits@.last().uri@ == commit.commit_uri@
            &&& end.commits@.last().sha256 == commit.commit_hash
            &&& end.commits@.last().operation_json@ == commit.operation_json@
            &&& end.commits@.last().result_json@ == commit.result_json@
            &&& end.commits@.last().metadata_json@ == commit.metadata_json@
            &&& end.intents@.last().key@ == commit.idempotency_key@
            &&& end.intents@.last().intent == commit.intent_hash
            &&& end.intents@.last().commit_id == commit.commit_id
            &&& end.intents@.last().table_version == commit.table_version
            &&& end.intents@.last().result_json@ == commit.result_json@
            &&& end.meta == (MetaRow {
                table_version: commit.table_version as i64,
                semantic_state: commit.semantic_state,
                last_commit_id: commit.commit_id,
                last_commit_sha256: commit.commit_hash,
                ..rows.meta
            })
            &&& end == (ImageRows {
                commits: end.commits,
                intents: end.intents,
                meta: end.meta,
                ..rows
            })
        },
{
    if let Ok(end) = r {
        assert forall|i: int| 0 <= i < rows.commits@.len() implies #[trigger] end.commits@[i]
            == rows.commits@[i] by {
            assert(end.commits@.drop_last()[i] == end.commits@[i]);
        }
        assert forall|i: int| 0 <= i < rows.intents@.len() implies #[trigger] end.intents@[i]
            == rows.intents@[i] by {
            assert(end.intents@.drop_last()[i] == end.intents@[i]);
        }
    }
}

/// A history tells every commit, in the order of the rows. It is refused only for a
/// negative version or an address that the protocol refuses.
pub proof fn lemma_history_tells_every_commit<C: TextCodec>(
    codec: C,
    commits: Vec<CommitRow>,
    r: Result<Vec<HistoryEntry>, RuntimeError>,
)
    requires
        call_ensures(history_entries::<C>, (&codec, &commits), r),
    ensures
        r matches Ok(entries) ==> {
            &&& entries@.len() == commits@.len()
            &&& forall|i: int|
                0 <= i < commits@.len() ==> {
                    let entry = #[trigger] entries@[i];
                    &&& entry.table_version == commits@[i].table_version
                    &&& entry.commit_id == commits@[i].commit_id
                    &&& entry.created_at_ms == commits@[i].created_at_ms
                    &&& entry.semantic_state_sha256 == commits@[i].semantic_state
                    &&& entry.commit_object_uri@ == commits@[i].uri@
                }
        },
        r matches Err(e) ==> exists|i: int|
            0 <= i < commits@.len() && ((#[trigger] commits@[i]).table_version < 0 || uri_refused(
                codec,
                commits@[i].uri,
                e,
            )),
{
    if let Err(e) = r {
        let i = choose|i: int|
            0 <= i < commits@.len() && #[trigger] crate::history::commit_unlistable(
                codec,
                commits@,
                i,
                e,
            );
        assert(commits@[i].table_version < 0 || uri_refused(codec, commits@[i].uri, e));
    }
}

/// A verification of the current state is over after one generation; one of the
/// history goes on with the parent, and with the commits where there is none.
pub proof fn lemma_verification_goes_on(
    scope: VerificationScope,
    parent: Option<ObjectReference>,
    step: VerificationStep,
)
    requires
        call_ensures(verification_step, (scope, &parent), step),
    ensures
        scope is Current ==> step is Finish,
        scope is RetainedHistory && parent is None ==> step is FollowCommits,
        scope is RetainedHistory && parent is Some ==> step == VerificationStep::Load(parent->0),
{
}

/// A verification of the current state starts from the snapshot of every ref, and from
/// nothing else; one of the history from every snapshot.
pub proof fn lemma_verification_starts(refs: Seq<RefRow>, records: Seq<SnapshotRecord>)
    ensures
        forall|i: int|
            0 <= i < refs.len() && (#[trigger] refs[i]).snapshot_id is Some
                ==> verification_starts(VerificationScope::Current, refs, records).contains(
                refs[i].snapshot_id->0,
            ),
        forall|k: int|
            0 <= k < verification_starts(VerificationScope::Current, refs, records).len()
                ==> exists|i: int|
                0 <= i < refs.len() && (#[trigger] refs[i]).snapshot_id == Some(
                    #[trigger] verification_starts(VerificationScope::Current, refs, records)[k],
                ),
        verification_starts(VerificationScope::RetainedHistory, refs, records).len()
            == records.len(),
        forall|i: int|
            0 <= i < records.len() ==> #[trigger] verification_starts(
                VerificationScope::RetainedHistory,
                refs,
                records,
            )[i] == records[i].row.snapshot_id,
    decreases refs.len(),
{
    let all = tips(refs);
    if refs.len() > 0 {
        let front = refs.drop_last();
        let n = refs.len() - 1;
        let before = tips(front);
        lemma_verification_starts(front, records);
        assert(before == verification_starts(VerificationScope::Current, front, records));
        assert(all == verification_starts(VerificationScope::Current, refs, records));
        assert forall|i: int|
            0 <= i < refs.len() && (#[trigger] refs[i]).snapshot_id is Some implies all.contains(
            refs[i].snapshot_id->0,
        ) by {
            if i < n {
                assert(front[i] == refs[i]);
                assert(before.contains(refs[i].snapshot_id->0));
                let k = choose|k: int|
                    0 <= k < before.len() && before[k] == refs[i].snapshot_id->0;
                assert(all[k] == before[k]);
            } else {
                assert(all[before.len() as int] == refs[n].snapshot_id->0);
            }
        }
        assert forall|k: int| 0 <= k < all.len() implies exists|i: int|
            0 <= i < refs.len() && (#[trigger] refs[i]).snapshot_id == Some(#[trigger] all[k]) by {
            if k < before.len() {
                let i = choose|i: int|
                    0 <= i < front.len() && (#[trigger] front[i]).snapshot_id == Some(before[k]);
                assert(refs[i] == front[i]);
                assert(refs[i].snapshot_id == Some(all[k]));
            } else {
                assert(refs[n].snapshot_id == Some(all[k]));
            }
        }
    }
}

} // verus!

//! What an append writes is what its commit says: the rows of an append pass the
//! comparison with the commit that it was made from.
use crate::append_rows::{
    append_check, appended, change_row_from, file_metrics, file_row_from, live_row_from,
    metric_row_from, moved_ref, stored_count, AppendImage, ImageFile, ImageMetric,
};
use crate::hash::{Id, Sha256};
use crate::history::{file_of, live_on, shown_file, LiveFileView};
use crate::projection::{
    added_check, adds, changes_agree, changes_check, commit_at, commit_projection, commit_row,
    commits_change, created_agree, created_by, entry_value, file_check, file_row, file_row_is,
    has_change, has_created, has_metric, has_metric_row, intent_check, intent_row, intents_check,
    live_row, metric_row_is, metric_rows, metrics_agree, parent_check, ref_record, same_count,
    snapshot_check, snapshot_projection, snapshot_row, snapshots_at, snapshots_check,
    summary_agrees, summary_value, target_agrees, CommitFacts, CommittedData, CommittedMetric,
    CommittedSnapshot, SummaryEntry,
};
use crate::publication::{replay_of, ActionView, EventView, PinFacts, Publication};
use crate::replay::{replayed, replayed_file, replayed_metric, ReplayedCommit};
use crate::tables::{
    CommitRow, FileRecord, ImageRows, IntentRow, LiveRow, MetricRecord, RefRecord, SnapshotRecord,
    SummaryRow,
};
use vstd::prelude::*;

verus! {

// -------------------------------------------------- searches over added rows

proof fn lemma_file_row(before: Seq<FileRecord>, tail: Seq<FileRecord>, id: Id, k: int)
    requires
        forall|i: int| 0 <= i < before.len() ==> (#[trigger] before[i]).file_id != id,
        0 <= k < tail.len(),
        tail[k].file_id == id,
        forall|i: int| 0 <= i < k ==> (#[trigger] tail[i]).file_id != id,
    ensures
        file_row(before + tail, id) == Some(tail[k]),
    decreases before.len() + tail.len(),
{
    let all = before + tail;
    if before.len() > 0 {
        assert(all[0] == before[0]);
        assert(all.skip(1) =~= before.skip(1) + tail);
        assert forall|i: int| 0 <= i < before.skip(1).len() implies (#[trigger] before.skip(
            1,
        )[i]).file_id != id by {
            assert(before.skip(1)[i] == before[i + 1]);
        }
        lemma_file_row(before.skip(1), tail, id, k);
    } else {
        assert(all =~= tail);
        if k > 0 {
            assert(tail[0].file_id != id);
            let rest = tail.skip(1);
            assert(rest[k - 1] == tail[k]);
            assert forall|i: int| 0 <= i < k - 1 implies (#[trigger] rest[i]).file_id != id by {
                assert(rest[i] == tail[i + 1]);
            }
            lemma_file_row(before, rest, id, k - 1);
            assert(before + rest =~= rest);
        }
    }
}

proof fn lemma_live_row(before: Seq<LiveRow>, tail: Seq<LiveRow>, name: Seq<char>, id: Id, k: int)
    requires
        forall|i: int|
            0 <= i < before.len() ==> !((#[trigger] before[i]).ref_name@ == name
                && before[i].file_id == id),
        0 <= k < tail.len(),
        tail[k].file_id == id && tail[k].ref_name@ == name,
        forall|i: int| 0 <= i < k ==> (#[trigger] tail[i]).file_id != id,
    ensures
        live_row(before + tail, name, id) == Some(tail[k]),
    decreases before.len() + tail.len(),
{
    let all = before + tail;
    if before.len() > 0 {
        assert(all[0] == before[0]);
        assert(all.skip(1) =~= before.skip(1) + tail);
        assert forall|i: int| 0 <= i < before.skip(1).len() implies !((#[trigger] before.skip(
            1,
        )[i]).ref_name@ == name && before.skip(1)[i].file_id == id) by {
            assert(before.skip(1)[i] == before[i + 1]);
        }
        lemma_live_row(before.skip(1), tail, name, id, k);
    } else {
        assert(all =~= tail);
        if k > 0 {
            assert(tail[0].file_id != id);
            let rest = tail.skip(1);
            assert(rest[k - 1] == tail[k]);
            assert forall|i: int| 0 <= i < k - 1 implies (#[trigger] rest[i]).file_id != id by {
                assert(rest[i] == tail[i + 1]);
            }
            lemma_live_row(before, rest, name, id, k - 1);
            assert(before + rest =~= rest);
        }
    }
}

proof fn lemma_summary(
    before: Seq<SummaryRow>,
    tail: Seq<SummaryRow>,
    id: Id,
    entries: Seq<SummaryEntry>,
    key: Seq<char>,
)
    requires
        forall|i: int| 0 <= i < before.len() ==> (#[trigger] before[i]).snapshot_id != id,
        tail.len() == entries.len(),
        forall|i: int|
            0 <= i < tail.len() ==> (#[trigger] tail[i]).snapshot_id == id && tail[i].key@
                == entries[i].key@ && tail[i].value_json@ == entries[i].value_json@,
    ensures
        summary_value(before + tail, id, key) == entry_value(entries, key),
    decreases before.len() + tail.len(),
{
    let all = before + tail;
    if before.len() > 0 {
        assert(all[0] == before[0]);
        assert(all.skip(1) =~= before.skip(1) + tail);
        assert forall|i: int| 0 <= i < before.skip(1).len() implies (#[trigger] before.skip(
            1,
        )[i]).snapshot_id != id by {
            assert(before.skip(1)[i] == before[i + 1]);
        }
        lemma_summary(before.skip(1), tail, id, entries, key);
    } else {
        assert(all =~= tail);
        if tail.len() > 0 {
            assert(tail[0].snapshot_id == id);
            let rest = tail.skip(1);
            let more = entries.skip(1);
            assert forall|i: int| 0 <= i < rest.len() implies (#[trigger] rest[i]).snapshot_id == id
                && rest[i].key@ == more[i].key@ && rest[i].value_json@ == more[i].value_json@ by {
                assert(rest[i] == tail[i + 1]);
                assert(more[i] == entries[i + 1]);
            }
            lemma_summary(before, rest, id, more, key);
            assert(before + rest =~= rest);
        }
    }
}

proof fn lemma_snapshot_row(before: Seq<SnapshotRecord>, last: SnapshotRecord, version: u64)
    requires
        forall|i: int|
            0 <= i < before.len() ==> (#[trigger] before[i]).committed_table_version != version,
        last.committed_table_version == version,
    ensures
        snapshot_row(before.push(last), last.row.snapshot_id, version) == Some(last),
        snapshots_at(before, version) == 0,
        snapshots_at(before.push(last), version) == 1,
    decreases before.len(),
{
    let all = before.push(last);
    assert(all.drop_last() =~= before);
    if before.len() > 0 {
        assert(all[0] == before[0]);
        assert(before[0].committed_table_version != version);
        assert(all.skip(1) =~= before.skip(1).push(last));
        assert forall|i: int| 0 <= i < before.skip(1).len() implies (#[trigger] before.skip(
            1,
        )[i]).committed_table_version != version by {
            assert(before.skip(1)[i] == before[i + 1]);
        }
        lemma_snapshot_row(before.skip(1), last, version);
        lemma_no_snapshots(before, version);
    } else {
        assert(all[0] == last);
    }
}

pub(crate) proof fn lemma_no_snapshots(before: Seq<SnapshotRecord>, version: u64)
    requires
        forall|i: int|
            0 <= i < before.len() ==> (#[trigger] before[i]).committed_table_version != version,
    ensures
        snapshots_at(before, version) == 0,
    decreases before.len(),
{
    if before.len() > 0 {
        assert(before[before.len() - 1].committed_table_version != version);
        assert forall|i: int| 0 <= i < before.drop_last().len() implies (
        #[trigger] before.drop_last()[i]).committed_table_version != version by {
            assert(before.drop_last()[i] == before[i]);
        }
        lemma_no_snapshots(before.drop_last(), version);
    }
}

pub(crate) proof fn lemma_commit_row(before: Seq<CommitRow>, last: CommitRow, version: u64, parent: u64)
    requires
        forall|i: int| 0 <= i < before.len() ==> (#[trigger] before[i]).table_version != version,
        last.table_version == version,
        parent != version,
    ensures
        commit_row(before.push(last), version, last.commit_id) == Some(last),
        commit_at(before.push(last), parent) == commit_at(before, parent),
    decreases before.len(),
{
    let all = before.push(last);
    if before.len() > 0 {
        assert(all[0] == before[0]);
        assert(before[0].table_version != version);
        assert(all.skip(1) =~= before.skip(1).push(last));
        assert forall|i: int| 0 <= i < before.skip(1).len() implies (#[trigger] before.skip(
            1,
        )[i]).table_version != version by {
            assert(before.skip(1)[i] == before[i + 1]);
        }
        lemma_commit_row(before.skip(1), last, version, parent);
    } else {
        assert(all[0] == last);
        assert(all.skip(1) =~= before);
    }
}

pub(crate) proof fn lemma_intent_row(before: Seq<IntentRow>, last: IntentRow)
    requires
        forall|i: int| 0 <= i < before.len() ==> (#[trigger] before[i]).key@ != last.key@,
    ensures
        intent_row(before.push(last), last.key@) == Some(last),
    decreases before.len(),
{
    let all = before.push(last);
    if before.len() > 0 {
        assert(all[0] == before[0]);
        assert(before[0].key@ != last.key@);
        assert(all.skip(1) =~= before.skip(1).push(last));
        assert forall|i: int| 0 <= i < before.skip(1).len() implies (#[trigger] before.skip(
            1,
        )[i]).key@ != last.key@ by {
            assert(before.skip(1)[i] == before[i + 1]);
        }
        lemma_intent_row(before.skip(1), last);
    } else {
        assert(all[0] == last);
    }
}

proof fn lemma_ref_moves(before: Seq<RefRecord>, after: Seq<RefRecord>, input: AppendImage)
    requires
        before.len() == after.len(),
        forall|i: int|
            0 <= i < before.len() ==> moved_ref(#[trigger] after[i], before[i], input),
    ensures
        match ref_record(before, input.target_ref@) {
            Some(old_ref) => ref_record(after, input.target_ref@) matches Some(new_ref)
                && moved_ref(new_ref, old_ref, input) && old_ref.name@ == input.target_ref@,
            None => ref_record(after, input.target_ref@) is None,
        },
    decreases before.len(),
{
    if before.len() > 0 {
        assert(moved_ref(after[0], before[0], input));
        let b = before.skip(1);
        let a = after.skip(1);
        assert forall|i: int| 0 <= i < b.len() implies moved_ref(#[trigger] a[i], b[i], input) by {
            assert(a[i] == after[i + 1]);
            assert(b[i] == before[i + 1]);
        }
        lemma_ref_moves(b, a, input);
    }
}

// ------------------------------------------------------------------ metrics

pub open spec fn pair_count(pairs: Seq<(Id, ImageMetric)>, id: Id) -> nat
    decreases pairs.len(),
{
    if pairs.len() == 0 {
        0
    } else {
        pair_count(pairs.drop_last(), id) + (if pairs.last().0 == id {
            1nat
        } else {
            0nat
        })
    }
}

proof fn lemma_pair_count_join(a: Seq<(Id, ImageMetric)>, b: Seq<(Id, ImageMetric)>, id: Id)
    ensures
        pair_count(a + b, id) == pair_count(a, id) + pair_count(b, id),
    decreases b.len(),
{
    if b.len() == 0 {
        assert(a + b =~= a);
    } else {
        assert((a + b).drop_last() =~= a + b.drop_last());
        lemma_pair_count_join(a, b.drop_last(), id);
    }
}

proof fn lemma_pair_count_const(pairs: Seq<(Id, ImageMetric)>, own: Id, id: Id)
    requires
        forall|i: int| 0 <= i < pairs.len() ==> (#[trigger] pairs[i]).0 == own,
    ensures
        pair_count(pairs, id) == (if own == id {
            pairs.len()
        } else {
            0
        }),
    decreases pairs.len(),
{
    if pairs.len() > 0 {
        assert(pairs[pairs.len() - 1].0 == own);
        assert forall|i: int| 0 <= i < pairs.drop_last().len() implies (
        #[trigger] pairs.drop_last()[i]).0 == own by {
            assert(pairs.drop_last()[i] == pairs[i]);
        }
        lemma_pair_count_const(pairs.drop_last(), own, id);
    }
}

pub open spec fn distinct_files(files: Seq<ImageFile>) -> bool {
    forall|i: int, j: int|
        #![trigger files[i], files[j]]
        0 <= i < j < files.len() ==> files[i].file_id != files[j].file_id
}

pub open spec fn has_pair(pairs: Seq<(Id, ImageMetric)>, id: Id, metric: ImageMetric) -> bool {
    exists|j: int| 0 <= j < pairs.len() && #[trigger] pairs[j] == (id, metric)
}

/// Each metric of the files stands under the file's identity, and nothing else.
proof fn lemma_pairs(files: Seq<ImageFile>, k: int)
    requires
        distinct_files(files),
        0 <= k < files.len(),
    ensures
        pair_count(file_metrics(files), files[k].file_id) == files[k].metrics@.len(),
        forall|j: int|
            0 <= j < file_metrics(files).len() && (#[trigger] file_metrics(files)[j]).0
                == files[k].file_id ==> exists|m: int|
                0 <= m < files[k].metrics@.len() && #[trigger] files[k].metrics@[m]
                    == file_metrics(files)[j].1,
        forall|m: int|
            0 <= m < files[k].metrics@.len() ==> has_pair(
                file_metrics(files),
                files[k].file_id,
                #[trigger] files[k].metrics@[m],
            ),
    decreases files.len(),
{
    let front = files.drop_last();
    let last = files.last();
    let own = Seq::new(last.metrics@.len(), |i: int| (last.file_id, last.metrics@[i]));
    let before = file_metrics(front);
    let id = files[k].file_id;
    assert(file_metrics(files) =~= before + own);
    lemma_pair_count_join(before, own, id);
    lemma_pair_count_const(own, last.file_id, id);
    assert forall|i: int, j: int|
        #![trigger front[i], front[j]]
        0 <= i < j < front.len() implies front[i].file_id != front[j].file_id by {
        assert(front[i] == files[i] && front[j] == files[j]);
    }
    if k < front.len() {
        assert(front[k] == files[k]);
        assert(files[k].file_id != files[files.len() - 1].file_id);
        lemma_pairs(front, k);
        assert forall|j: int|
            0 <= j < file_metrics(files).len() && (#[trigger] file_metrics(files)[j]).0
                == id implies exists|m: int|
            0 <= m < files[k].metrics@.len() && #[trigger] files[k].metrics@[m] == file_metrics(
                files,
            )[j].1 by {
            if j < before.len() {
                assert(file_metrics(files)[j] == before[j]);
            } else {
                assert(file_metrics(files)[j] == own[j - before.len()]);
            }
        }
        assert forall|m: int| 0 <= m < files[k].metrics@.len() implies has_pair(
            file_metrics(files),
            id,
            #[trigger] files[k].metrics@[m],
        ) by {
            assert(has_pair(before, front[k].file_id, front[k].metrics@[m]));
            let j = choose|j: int|
                0 <= j < before.len() && #[trigger] before[j] == (
                    front[k].file_id,
                    front[k].metrics@[m],
                );
            assert(file_metrics(files)[j] == before[j]);
        }
    } else {
        lemma_absent(front, id);
        assert forall|j: int|
            0 <= j < file_metrics(files).len() && (#[trigger] file_metrics(files)[j]).0
                == id implies exists|m: int|
            0 <= m < files[k].metrics@.len() && #[trigger] files[k].metrics@[m] == file_metrics(
                files,
            )[j].1 by {
            if j < before.len() {
                assert(file_metrics(files)[j] == before[j]);
            } else {
                let m = j - before.len();
                assert(file_metrics(files)[j] == own[m]);
                assert(files[k].metrics@[m] == own[m].1);
            }
        }
        assert forall|m: int| 0 <= m < files[k].metrics@.len() implies has_pair(
            file_metrics(files),
            id,
            #[trigger] files[k].metrics@[m],
        ) by {
            assert(file_metrics(files)[before.len() + m] == own[m]);
        }
    }
}

/// Files with other identities give no metrics under this one.
proof fn lemma_absent(files: Seq<ImageFile>, id: Id)
    requires
        forall|i: int| 0 <= i < files.len() ==> (#[trigger] files[i]).file_id != id,
    ensures
        pair_count(file_metrics(files), id) == 0,
        forall|j: int|
            0 <= j < file_metrics(files).len() ==> (#[trigger] file_metrics(files)[j]).0 != id,
    decreases files.len(),
{
    if files.len() > 0 {
        let front = files.drop_last();
        let last = files.last();
        let own = Seq::new(last.metrics@.len(), |i: int| (last.file_id, last.metrics@[i]));
        assert(file_metrics(files) =~= file_metrics(front) + own);
        assert forall|i: int| 0 <= i < front.len() implies (#[trigger] front[i]).file_id != id by {
            assert(front[i] == files[i]);
        }
        assert(files[files.len() - 1].file_id != id);
        lemma_absent(front, id);
        lemma_pair_count_join(file_metrics(front), own, id);
        lemma_pair_count_const(own, last.file_id, id);
        assert forall|j: int| 0 <= j < file_metrics(files).len() implies (
        #[trigger] file_metrics(files)[j]).0 != id by {
            if j < file_metrics(front).len() {
                assert(file_metrics(files)[j] == file_metrics(front)[j]);
            } else {
                assert(file_metrics(files)[j] == own[j - file_metrics(front).len()]);
            }
        }
    }
}

proof fn lemma_metric_rows(
    before: Seq<MetricRecord>,
    tail: Seq<MetricRecord>,
    pairs: Seq<(Id, ImageMetric)>,
    id: Id,
)
    requires
        forall|i: int| 0 <= i < before.len() ==> (#[trigger] before[i]).file_id != id,
        tail.len() == pairs.len(),
        forall|i: int| 0 <= i < tail.len() ==> (#[trigger] tail[i]).file_id == pairs[i].0,
    ensures
        metric_rows(before + tail, id) == pair_count(pairs, id),
    decreases before.len() + tail.len(),
{
    let all = before + tail;
    if tail.len() > 0 {
        assert(all.drop_last() =~= before + tail.drop_last());
        assert(all.last() == tail[tail.len() - 1]);
        assert forall|i: int| 0 <= i < tail.drop_last().len() implies (
        #[trigger] tail.drop_last()[i]).file_id == pairs.drop_last()[i].0 by {
            assert(tail.drop_last()[i] == tail[i]);
        }
        lemma_metric_rows(before, tail.drop_last(), pairs.drop_last(), id);
    } else if before.len() > 0 {
        assert(all =~= before);
        assert(before[before.len() - 1].file_id != id);
        assert forall|i: int| 0 <= i < before.drop_last().len() implies (
        #[trigger] before.drop_last()[i]).file_id != id by {
            assert(before.drop_last()[i] == before[i]);
        }
        lemma_metric_rows(before.drop_last(), tail, pairs, id);
        assert(before.drop_last() + tail =~= before.drop_last());
    }
}

proof fn lemma_metric_row_is(
    row: MetricRecord,
    file: Id,
    metric: ImageMetric,
    committed: CommittedMetric,
)
    requires
        metric_row_from(row, file, metric),
        replayed_metric(metric, committed),
    ensures
        metric_row_is(row, committed),
{
    lemma_count(row.column_size_bytes, metric.column_size_bytes);
    lemma_count(row.value_count, metric.value_count);
    lemma_count(row.null_count, metric.null_count);
    lemma_count(row.nan_count, metric.nan_count);
    lemma_count(row.distinct_count, metric.distinct_count);
}

proof fn lemma_count(row: Option<i64>, value: Option<u64>)
    requires
        stored_count(row, value),
    ensures
        same_count(row, value),
{
}

// ------------------------------------------------------------------ the law

/// Nothing of an image stands under the identities, the version or the key of an
/// append yet, and its target is a branch.
pub open spec fn fresh(before: ImageRows, input: AppendImage) -> bool {
    let version = input.table_version;
    &&& forall|i: int|
        0 <= i < before.snapshots@.len() ==> (
        #[trigger] before.snapshots@[i]).committed_table_version != version
    &&& forall|i: int|
        0 <= i < before.summaries@.len() ==> (#[trigger] before.summaries@[i]).snapshot_id
            != input.snapshot_id
    &&& forall|i: int|
        0 <= i < before.changes@.len() ==> (#[trigger] before.changes@[i]).snapshot_id
            != input.snapshot_id
    &&& forall|i: int|
        0 <= i < before.files@.len() ==> (#[trigger] before.files@[i]).created_snapshot_id
            != input.snapshot_id && before.files@[i].created_version != version
    &&& forall|i: int, k: int|
        0 <= i < before.files@.len() && 0 <= k < input.files@.len() ==> (
        #[trigger] before.files@[i]).file_id != (#[trigger] input.files@[k]).file_id
    &&& forall|i: int, k: int|
        0 <= i < before.live@.len() && 0 <= k < input.files@.len() ==> (
        #[trigger] before.live@[i]).file_id != (#[trigger] input.files@[k]).file_id
    &&& forall|i: int, k: int|
        0 <= i < before.metrics@.len() && 0 <= k < input.files@.len() ==> (
        #[trigger] before.metrics@[i]).file_id != (#[trigger] input.files@[k]).file_id
    &&& forall|i: int|
        0 <= i < before.commits@.len() ==> (#[trigger] before.commits@[i]).table_version != version
    &&& forall|i: int|
        0 <= i < before.intents@.len() ==> (#[trigger] before.intents@[i]).key@
            != input.idempotency_key@
    &&& distinct_files(input.files@)
    &&& ref_record(before.refs@, input.target_ref@) matches Some(target) && target.ref_type@
        == "branch"@
}

/// A snapshot of the profile that the runtime writes: an append of unpartitioned
/// files under the current schema.
pub open spec fn in_append_profile(before: ImageRows, snapshot: CommittedSnapshot) -> bool {
    &&& snapshot.schema_id == before.meta.current_schema_id
    &&& snapshot.partition_spec_id == 0
    &&& snapshot.sort_order_id == 0
    &&& snapshot.operation@ == "append"@
    &&& !snapshot.scan_projection
    &&& snapshot.removed_file_ids@.len() == 0
    &&& forall|i: int|
        0 <= i < snapshot.added_files@.len() ==> {
            let file = #[trigger] snapshot.added_files@[i];
            &&& file.object_identity is None
            &&& file.file_format@ == "parquet"@
            &&& file.partition_spec_id == 0
            &&& file.sort_order_id == 0
        }
}

/// The facts of a commit with one intent and one snapshot, on top of an image.
pub open spec fn facts_of(
    facts: CommitFacts,
    before: ImageRows,
    commit: ReplayedCommit,
    snapshot: CommittedSnapshot,
) -> bool {
    &&& facts.table_version == commit.table_version
    &&& facts.commit_id == commit.commit_id
    &&& facts.created_at_ms == commit.created_at_ms
    &&& facts.operations_json@ == commit.operation_json@
    &&& facts.metadata_json@ == commit.metadata_json@
    &&& facts.intents@.len() == 1
    &&& facts.intents@[0].key@ == commit.idempotency_key@
    &&& facts.intents@[0].intent_sha256 == commit.intent_hash
    &&& facts.intents@[0].result_json@ == commit.result_json@
    &&& facts.snapshots@ == seq![snapshot]
    &&& facts.parent matches Some(parent) && {
        &&& parent.table_version < commit.table_version
        &&& parent.is_commit
        &&& commit_at(before.commits@, parent.table_version) matches Some(row) && row.uri@
            == parent.uri@ && row.sha256 == parent.sha256
    }
}

proof fn lemma_added_files(
    before: ImageRows,
    after: ImageRows,
    input: AppendImage,
    commit: ReplayedCommit,
    snapshot: CommittedSnapshot,
    k: int,
)
    requires
        appended(after, before, input),
        replayed(input, commit, snapshot),
        fresh(before, input),
        in_append_profile(before, snapshot),
        0 <= k < input.files@.len(),
    ensures
        file_check(after, input.table_version, snapshot, snapshot.added_files@[k]) is Ok,
{
    let n = before.files@.len() as int;
    let file = snapshot.added_files@[k];
    let own = input.files@[k];
    assert(replayed_file(input.files@[k], snapshot.added_files@[k]));
    let tail = after.files@.skip(n);
    assert(after.files@ =~= before.files@ + tail);
    assert forall|i: int| 0 <= i < tail.len() implies file_row_from(
        #[trigger] tail[i],
        input.files@[i],
        input,
    ) by {
        assert(tail[i] == after.files@[n + i]);
    }
    assert forall|i: int| 0 <= i < k implies (#[trigger] tail[i]).file_id != own.file_id by {
        assert(input.files@[i].file_id != input.files@[k].file_id);
    }
    lemma_file_row(before.files@, tail, own.file_id, k);
    let live_tail = after.live@.skip(before.live@.len() as int);
    assert(after.live@ =~= before.live@ + live_tail);
    assert forall|i: int| 0 <= i < live_tail.len() implies live_row_from(
        #[trigger] live_tail[i],
        input.files@[i],
        input,
    ) by {
        assert(live_tail[i] == after.live@[before.live@.len() + i]);
    }
    assert forall|i: int| 0 <= i < k implies (#[trigger] live_tail[i]).file_id != own.file_id by {
        assert(input.files@[i].file_id != input.files@[k].file_id);
    }
    assert(live_row_from(live_tail[k], own, input));
    lemma_live_row(before.live@, live_tail, snapshot.target_ref@, own.file_id, k);
    assert(file_row_from(tail[k], own, input));
    assert(file_row_is(tail[k], file, snapshot, input.table_version));
    lemma_file_metrics(before, after, input, own, file, k);
}

proof fn lemma_file_metrics(
    before: ImageRows,
    after: ImageRows,
    input: AppendImage,
    own: ImageFile,
    file: CommittedData,
    k: int,
)
    requires
        appended(after, before, input),
        fresh(before, input),
        0 <= k < input.files@.len(),
        own == input.files@[k],
        replayed_file(own, file),
    ensures
        metrics_agree(after.metrics@, file),
{
    let pairs = file_metrics(input.files@);
    let n = before.metrics@.len() as int;
    let tail = after.metrics@.skip(n);
    let id = own.file_id;
    assert(after.metrics@ =~= before.metrics@ + tail);
    assert forall|i: int| 0 <= i < tail.len() implies metric_row_from(
        #[trigger] tail[i],
        pairs[i].0,
        pairs[i].1,
    ) by {
        assert(tail[i] == after.metrics@[n + i]);
    }
    assert forall|i: int| 0 <= i < before.metrics@.len() implies (
    #[trigger] before.metrics@[i]).file_id != id by {
        assert(before.metrics@[i].file_id != input.files@[k].file_id);
    }
    lemma_pairs(input.files@, k);
    lemma_metric_rows(before.metrics@, tail, pairs, id);
    assert forall|m: int| 0 <= m < file.metrics@.len() implies has_metric_row(
        after.metrics@,
        id,
        #[trigger] file.metrics@[m],
    ) by {
        assert(replayed_metric(own.metrics@[m], file.metrics@[m]));
        assert(has_pair(pairs, id, own.metrics@[m]));
        let j = choose|j: int| 0 <= j < pairs.len() && #[trigger] pairs[j] == (id, own.metrics@[m]);
        assert(metric_row_from(tail[j], pairs[j].0, pairs[j].1));
        lemma_metric_row_is(tail[j], id, own.metrics@[m], file.metrics@[m]);
        assert(after.metrics@[n + j] == tail[j]);
    }
    assert forall|i: int|
        0 <= i < after.metrics@.len() && (#[trigger] after.metrics@[i]).file_id
            == id implies has_metric(file.metrics@, after.metrics@[i]) by {
        if i < n {
            assert(after.metrics@[i] == before.metrics@[i]);
        } else {
            let j = i - n;
            assert(tail[j] == after.metrics@[i]);
            assert(metric_row_from(tail[j], pairs[j].0, pairs[j].1));
            let m = choose|m: int|
                0 <= m < own.metrics@.len() && #[trigger] own.metrics@[m] == pairs[j].1;
            assert(replayed_metric(own.metrics@[m], file.metrics@[m]));
            lemma_metric_row_is(tail[j], id, own.metrics@[m], file.metrics@[m]);
        }
    }
}

proof fn lemma_all_added(
    rows: ImageRows,
    version: u64,
    snapshot: CommittedSnapshot,
    files: Seq<CommittedData>,
)
    requires
        forall|i: int|
            0 <= i < files.len() ==> file_check(rows, version, snapshot, #[trigger] files[i]) is Ok,
    ensures
        added_check(rows, version, snapshot, files) is Ok,
    decreases files.len(),
{
    if files.len() > 0 {
        assert(file_check(rows, version, snapshot, files[0]) is Ok);
        let rest = files.skip(1);
        assert forall|i: int| 0 <= i < rest.len() implies file_check(
            rows,
            version,
            snapshot,
            #[trigger] rest[i],
        ) is Ok by {
            assert(rest[i] == files[i + 1]);
        }
        lemma_all_added(rows, version, snapshot, rest);
    }
}

proof fn lemma_changes(
    before: ImageRows,
    after: ImageRows,
    input: AppendImage,
    commit: ReplayedCommit,
    snapshot: CommittedSnapshot,
)
    requires
        appended(after, before, input),
        replayed(input, commit, snapshot),
        fresh(before, input),
        in_append_profile(before, snapshot),
    ensures
        changes_agree(after, snapshot),
        created_agree(after, snapshot, input.table_version),
{
    let n = before.changes@.len() as int;
    let f = before.files@.len() as int;
    assert forall|file: Id, kind: Seq<char>| #[trigger]
        has_change(after.changes@, snapshot.snapshot_id, file, kind) <==> commits_change(
            snapshot,
            file,
            kind,
        ) by {
        if has_change(after.changes@, snapshot.snapshot_id, file, kind) {
            let i = choose|i: int|
                0 <= i < after.changes@.len() && (#[trigger] after.changes@[i]).snapshot_id
                    == snapshot.snapshot_id && after.changes@[i].file_id == file
                    && after.changes@[i].change_kind@ == kind;
            if i < n {
                assert(after.changes@[i] == before.changes@[i]);
            } else {
                let k = i - n;
                assert(change_row_from(after.changes@[n + k], input.files@[k], input));
                assert(replayed_file(input.files@[k], snapshot.added_files@[k]));
                assert(snapshot.added_files@[k].file_id == file);
            }
        }
        if commits_change(snapshot, file, kind) {
            assert(!snapshot.removed_file_ids@.contains(file));
            let k = choose|k: int|
                0 <= k < snapshot.added_files@.len() && (
                #[trigger] snapshot.added_files@[k]).file_id == file;
            assert(replayed_file(input.files@[k], snapshot.added_files@[k]));
            assert(change_row_from(after.changes@[n + k], input.files@[k], input));
        }
    }
    assert forall|file: Id| #[trigger]
        has_created(after.files@, snapshot, input.table_version, file) <==> adds(snapshot, file) by {
        if has_created(after.files@, snapshot, input.table_version, file) {
            let i = choose|i: int|
                0 <= i < after.files@.len() && (#[trigger] after.files@[i]).file_id == file
                    && created_by(after.files@[i], snapshot, input.table_version);
            if i < f {
                assert(after.files@[i] == before.files@[i]);
            } else {
                let k = i - f;
                assert(file_row_from(after.files@[f + k], input.files@[k], input));
                assert(replayed_file(input.files@[k], snapshot.added_files@[k]));
                assert(snapshot.added_files@[k].file_id == file);
            }
        }
        if adds(snapshot, file) {
            let k = choose|k: int|
                0 <= k < snapshot.added_files@.len() && (
                #[trigger] snapshot.added_files@[k]).file_id == file;
            assert(replayed_file(input.files@[k], snapshot.added_files@[k]));
            assert(file_row_from(after.files@[f + k], input.files@[k], input));
        }
    }
}

proof fn lemma_snapshot_shown(
    before: ImageRows,
    after: ImageRows,
    input: AppendImage,
    commit: ReplayedCommit,
    snapshot: CommittedSnapshot,
    facts: CommitFacts,
)
    requires
        append_check(before, input) is Ok,
        appended(after, before, input),
        replayed(input, commit, snapshot),
        fresh(before, input),
        in_append_profile(before, snapshot),
        facts_of(facts, before, commit, snapshot),
    ensures
        snapshot_check(after, facts, snapshot) is Ok,
        snapshots_at(after.snapshots@, facts.table_version) == 1,
{
    let last = after.snapshots@.last();
    assert(after.snapshots@ =~= before.snapshots@.push(last));
    lemma_snapshot_row(before.snapshots@, last, input.table_version);
    let s = before.summaries@.len() as int;
    let tail = after.summaries@.skip(s);
    assert(after.summaries@ =~= before.summaries@ + tail);
    assert forall|i: int| 0 <= i < tail.len() implies (#[trigger] tail[i]).snapshot_id
        == input.snapshot_id && tail[i].key@ == input.summary@[i].key@ && tail[i].value_json@
        == input.summary@[i].value_json@ by {
        assert(tail[i] == after.summaries@[s + i]);
    }
    assert forall|key: Seq<char>| #[trigger]
        summary_value(after.summaries@, snapshot.snapshot_id, key) == entry_value(
            input.summary@,
            key,
        ) by {
        lemma_summary(before.summaries@, tail, input.snapshot_id, input.summary@, key);
    }
    assert(summary_agrees(after.summaries@, snapshot.snapshot_id, input.summary@));
    lemma_changes(before, after, input, commit, snapshot);
    assert forall|k: int| 0 <= k < snapshot.added_files@.len() implies file_check(
        after,
        input.table_version,
        snapshot,
        #[trigger] snapshot.added_files@[k],
    ) is Ok by {
        lemma_added_files(before, after, input, commit, snapshot, k);
    }
    lemma_all_added(after, input.table_version, snapshot, snapshot.added_files@);
    assert(changes_check(after, input.table_version, snapshot) is Ok);
    lemma_ref_moves(before.refs@, after.refs@, input);
    assert(target_agrees(after, input.table_version, snapshot));
}

/// An append that is made from a commit, on an image that knows nothing of it
/// yet, gives an image whose rows say exactly what the commit says.
pub proof fn lemma_append_projects_its_commit(
    before: ImageRows,
    after: ImageRows,
    input: AppendImage,
    commit: ReplayedCommit,
    snapshot: CommittedSnapshot,
    facts: CommitFacts,
)
    requires
        append_check(before, input) is Ok,
        appended(after, before, input),
        replayed(input, commit, snapshot),
        fresh(before, input),
        in_append_profile(before, snapshot),
        facts_of(facts, before, commit, snapshot),
    ensures
        commit_projection(after, facts, Ok(())) is Ok,
{
    let row = after.commits@.last();
    assert(after.commits@ =~= before.commits@.push(row));
    lemma_commit_row(
        before.commits@,
        row,
        facts.table_version,
        facts.parent->Some_0.table_version,
    );
    lemma_snapshot_shown(before, after, input, commit, snapshot, facts);
    let one = facts.snapshots@;
    assert(one.drop_last() =~= Seq::<CommittedSnapshot>::empty());
    assert(one.last() == snapshot);
    assert(snapshots_check(after, facts, one.drop_last()) is Ok);
    assert(snapshots_check(after, facts, one) is Ok);
    assert(snapshot_projection(after, facts) is Ok);
    let intent = after.intents@.last();
    assert(after.intents@ =~= before.intents@.push(intent));
    lemma_intent_row(before.intents@, intent);
    assert(intent_check(after, facts, facts.intents@[0]) is Ok);
    assert(facts.intents@.skip(1).len() == 0);
    assert(intents_check(after, facts, facts.intents@.skip(1)) is Ok);
    assert(intents_check(after, facts, facts.intents@) is Ok);
    assert(parent_check(after, facts) is Ok);
}

// ---------------------------------------------------- reading an append back

/// A file of an append as a listing shows it.
pub open spec fn shown_addition(file: ImageFile, input: AppendImage) -> LiveFileView {
    LiveFileView {
        file_id: file.file_id,
        uri: file.uri@,
        file_format: file.format.spec_text(),
        file_size_bytes: file.file_size_bytes as int,
        record_count: file.record_count as int,
        content_sha256: Some(file.content_sha256),
        sequence_number: input.sequence_number as int,
    }
}

pub open spec fn shown_additions(input: AppendImage) -> Seq<LiveFileView> {
    Seq::new(input.files@.len(), |i: int| shown_addition(input.files@[i], input))
}

/// A file that is none of the added ones is found where it was.
proof fn lemma_file_kept(before: Seq<FileRecord>, tail: Seq<FileRecord>, id: Id)
    requires
        forall|i: int| 0 <= i < tail.len() ==> (#[trigger] tail[i]).file_id != id,
    ensures
        file_of(before + tail, id) == file_of(before, id),
    decreases before.len() + tail.len(),
{
    let all = before + tail;
    if before.len() > 0 {
        assert(all[0] == before[0]);
        assert(all.skip(1) =~= before.skip(1) + tail);
        lemma_file_kept(before.skip(1), tail, id);
    } else {
        assert(all =~= tail);
        if tail.len() > 0 {
            let rest = tail.skip(1);
            assert(tail[0].file_id != id);
            assert forall|i: int| 0 <= i < rest.len() implies (#[trigger] rest[i]).file_id != id by {
                assert(rest[i] == tail[i + 1]);
            }
            lemma_file_kept(before, rest, id);
            assert(before + rest =~= rest);
        }
    }
}

proof fn lemma_same_search(files: Seq<FileRecord>, id: Id)
    ensures
        file_of(files, id) == file_row(files, id),
    decreases files.len(),
{
    if files.len() > 0 {
        lemma_same_search(files.skip(1), id);
    }
}

/// The live rows of an image show the same files after more files were added.
proof fn lemma_live_kept(
    live: Seq<LiveRow>,
    before: Seq<FileRecord>,
    tail: Seq<FileRecord>,
    name: Seq<char>,
)
    requires
        forall|i: int, k: int|
            0 <= i < live.len() && 0 <= k < tail.len() ==> (#[trigger] live[i]).file_id != (
            #[trigger] tail[k]).file_id,
    ensures
        live_on(live, before + tail, name) == live_on(live, before, name),
    decreases live.len(),
{
    if live.len() > 0 {
        let last = live[live.len() - 1];
        assert forall|k: int| 0 <= k < tail.len() implies (#[trigger] tail[k]).file_id
            != last.file_id by {
            assert(live[live.len() - 1].file_id != tail[k].file_id);
        }
        lemma_file_kept(before, tail, last.file_id);
        let front = live.drop_last();
        assert forall|i: int, k: int|
            0 <= i < front.len() && 0 <= k < tail.len() implies (#[trigger] front[i]).file_id != (
        #[trigger] tail[k]).file_id by {
            assert(front[i] == live[i]);
        }
        lemma_live_kept(front, before, tail, name);
    }
}

/// After an append, its branch lists the files that it listed before and then
/// the files of the append. Other branches list what they listed before.
pub proof fn lemma_append_is_listed(
    before: ImageRows,
    after: ImageRows,
    input: AppendImage,
    name: Seq<char>,
)
    requires
        append_check(before, input) is Ok,
        appended(after, before, input),
        fresh(before, input),
    ensures
        live_on(after.live@, after.files@, name) == live_on(before.live@, before.files@, name) + (
        if name == input.target_ref@ {
            shown_additions(input)
        } else {
            Seq::empty()
        }),
{
    let n = before.files@.len() as int;
    let tail = after.files@.skip(n);
    assert(after.files@ =~= before.files@ + tail);
    assert forall|i: int| 0 <= i < tail.len() implies file_row_from(
        #[trigger] tail[i],
        input.files@[i],
        input,
    ) by {
        assert(tail[i] == after.files@[n + i]);
    }
    assert forall|i: int, k: int|
        0 <= i < before.live@.len() && 0 <= k < tail.len() implies (
    #[trigger] before.live@[i]).file_id != (#[trigger] tail[k]).file_id by {
        assert(before.live@[i].file_id != input.files@[k].file_id);
    }
    lemma_live_kept(before.live@, before.files@, tail, name);
    let more = after.live@.skip(before.live@.len() as int);
    assert(after.live@ =~= before.live@ + more);
    assert forall|i: int| 0 <= i < more.len() implies live_row_from(
        #[trigger] more[i],
        input.files@[i],
        input,
    ) by {
        assert(more[i] == after.live@[before.live@.len() + i]);
    }
    assert(more.take(more.len() as int) =~= more);
    lemma_additions_listed(before, after, input, name, tail, more, more.len() as int);
    assert(shown_additions(input).take(more.len() as int) =~= shown_additions(input));
    let listed = live_on(before.live@, before.files@, name);
    assert(listed + Seq::<LiveFileView>::empty() =~= listed);
}

proof fn lemma_additions_listed(
    before: ImageRows,
    after: ImageRows,
    input: AppendImage,
    name: Seq<char>,
    tail: Seq<FileRecord>,
    more: Seq<LiveRow>,
    k: int,
)
    requires
        fresh(before, input),
        append_check(before, input) is Ok,
        after.files@ == before.files@ + tail,
        tail.len() == input.files@.len(),
        more.len() == input.files@.len(),
        forall|i: int|
            0 <= i < tail.len() ==> file_row_from(#[trigger] tail[i], input.files@[i], input),
        forall|i: int|
            0 <= i < more.len() ==> live_row_from(#[trigger] more[i], input.files@[i], input),
        live_on(before.live@, after.files@, name) == live_on(before.live@, before.files@, name),
        0 <= k <= more.len(),
    ensures
        live_on(before.live@ + more.take(k), after.files@, name) == live_on(
            before.live@,
            before.files@,
            name,
        ) + (if name == input.target_ref@ {
            shown_additions(input).take(k)
        } else {
            Seq::empty()
        }),
    decreases k,
{
    let old_live = live_on(before.live@, before.files@, name);
    if k == 0 {
        assert(before.live@ + more.take(0) =~= before.live@);
        assert(shown_additions(input).take(0) =~= Seq::<LiveFileView>::empty());
        assert(old_live + Seq::<LiveFileView>::empty() =~= old_live);
    } else {
        lemma_additions_listed(before, after, input, name, tail, more, k - 1);
        let all = before.live@ + more.take(k);
        assert(all.drop_last() =~= before.live@ + more.take(k - 1));
        assert(all.last() == more[k - 1]);
        let file = input.files@[k - 1];
        assert(live_row_from(more[k - 1], file, input));
        assert forall|i: int| 0 <= i < k - 1 implies (#[trigger] tail[i]).file_id != file.file_id by {
            assert(input.files@[i].file_id != input.files@[k - 1].file_id);
        }
        assert forall|i: int| 0 <= i < before.files@.len() implies (
        #[trigger] before.files@[i]).file_id != file.file_id by {
            assert(before.files@[i].file_id != input.files@[k - 1].file_id);
        }
        assert(file_row_from(tail[k - 1], file, input));
        lemma_file_row(before.files@, tail, file.file_id, k - 1);
        lemma_same_search(after.files@, file.file_id);
        if name == input.target_ref@ {
            let shown = shown_file(tail[k - 1], more[k - 1].file_sequence_number);
            assert(shown == shown_addition(file, input));
            assert(shown_additions(input).take(k) =~= shown_additions(input).take(k - 1).push(
                shown,
            ));
            assert(old_live + shown_additions(input).take(k) =~= (old_live + shown_additions(
                input,
            ).take(k - 1)).push(shown));
        }
    }
}

/// What an append stored under its key is found again, and what was stored under
/// other keys stays.
pub proof fn lemma_append_is_remembered(
    before: ImageRows,
    after: ImageRows,
    input: AppendImage,
    key: Seq<char>,
)
    requires
        appended(after, before, input),
        fresh(before, input),
    ensures
        key == input.idempotency_key@ ==> (intent_row(after.intents@, key) matches Some(row)
            && row.intent == input.intent_hash && row.commit_id == input.commit_id
            && row.result_json@ == input.result_json@),
        key != input.idempotency_key@ ==> intent_row(after.intents@, key) == intent_row(
            before.intents@,
            key,
        ),
{
    let last = after.intents@.last();
    assert(after.intents@ =~= before.intents@.push(last));
    if key == input.idempotency_key@ {
        lemma_intent_row(before.intents@, last);
    } else {
        lemma_intent_kept(before.intents@, last, key);
    }
}

/// The intent that is stored under a key, if there is one.
pub open spec fn stored_intent(rows: ImageRows, key: Seq<char>) -> Option<Sha256> {
    match intent_row(rows.intents@, key) {
        Some(row) => Some(row.intent),
        None => None,
    }
}

/// An append that is asked for a second time changes nothing: the first pin finds
/// it, and the publication ends there with the result that was stored.
pub proof fn lemma_repeated_append_changes_nothing(
    before: ImageRows,
    after: ImageRows,
    input: AppendImage,
    publication: Publication,
    unchanged: bool,
)
    requires
        appended(after, before, input),
        fresh(before, input),
        publication.phase is Parent,
    ensures
        ({
            let facts = PinFacts {
                same_table: true,
                replay: replay_of(
                    stored_intent(after, input.idempotency_key@),
                    input.intent_hash,
                ),
                unchanged,
            };
            publication.next(EventView::Pinned(facts)) == (
                publication.finished(),
                ActionView::Replayed,
            )
        }),
        intent_row(after.intents@, input.idempotency_key@) matches Some(row) && row.result_json@
            == input.result_json@,
{
    lemma_append_is_remembered(before, after, input, input.idempotency_key@);
}

pub(crate) proof fn lemma_intent_kept(before: Seq<IntentRow>, last: IntentRow, key: Seq<char>)
    requires
        last.key@ != key,
    ensures
        intent_row(before.push(last), key) == intent_row(before, key),
    decreases before.len(),
{
    let all = before.push(last);
    if before.len() > 0 {
        assert(all[0] == before[0]);
        assert(all.skip(1) =~= before.skip(1).push(last));
        lemma_intent_kept(before.skip(1), last, key);
    } else {
        assert(all[0] == last);
        assert(all.skip(1) =~= before);
    }
}

} // verus!

//! An append to a valid image gives a valid image.
use crate::append_rows::{
    append_check, appended, change_row_from, file_row_from, live_row_from, moved_ref, AppendImage,
};
use crate::catalog::{lemma_lineage, lineage, snapshot_of, SnapshotRow, Walk};
use crate::error::ErrorView;
use crate::hash::Id;
use crate::image::{
    added, belongs, contiguous, descriptors_check, file_in_profile, file_schema, follows_parent,
    has_file, has_sequence, has_snapshot, history_check, history_holds, image_check, in_profile,
    intents_of, is_main, last_commits, listed, live_is_backed, membership_agrees, meta_matches,
    paired, partition_check, partitions_check, ref_check, ref_in_shape, refs_check, refs_resolve,
    snapshot_in_range, snapshot_rows, state_at, stored_metric_check, stored_metrics_check,
    ExpectedImage, Membership, APPLICATION_ID, PAGE_SIZE, USER_VERSION,
};
use crate::projection::ref_record;
use crate::round_trip::fresh;
use crate::tables::{
    CommitRow, FileRecord, ImageRows, IntentRow, LiveRow, MetricFacts, MetricRecord,
    PartitionFacts, RefRecord,
};
use vstd::prelude::*;

verus! {

/// The append continues the branch that it names: its snapshot is new, has the
/// next sequence number and follows the branch's snapshot. Refs have different
/// names.
pub open spec fn next_in_line(before: ImageRows, input: AppendImage) -> bool {
    &&& input.sequence_number == before.meta.last_sequence_number + 1
    &&& ref_record(before.refs@, input.target_ref@) matches Some(target)
        && target.snapshot_id == input.parent_snapshot_id
    &&& forall|i: int|
        0 <= i < before.snapshots@.len() ==> (#[trigger] before.snapshots@[i]).row.snapshot_id
            != input.snapshot_id
    &&& forall|i: int|
        0 <= i < before.intents@.len() ==> (#[trigger] before.intents@[i]).table_version
            != input.table_version
    &&& forall|i: int, j: int|
        0 <= i < j < before.refs@.len() ==> (#[trigger] before.refs@[i]).name@ != (
        #[trigger] before.refs@[j]).name@
    &&& forall|i: int|
        0 <= i < input.files@.len() ==> (#[trigger] input.files@[i]).partition_spec_id == 0
            && input.files@[i].sort_order_id == 0
}

/// What the engine and the codecs say of the image after the append: the file is
/// sound, what they said of the rows that were there stands, and the descriptors
/// of the new files and metrics are accepted.
pub open spec fn still_sound(after: ImageRows, before: ImageRows) -> bool {
    let files = before.files@.len() as int;
    let metrics = before.metrics@.len() as int;
    &&& after.integrity@ == "ok"@
    &&& after.foreign_key_errors == 0
    &&& after.application_id == APPLICATION_ID
    &&& after.user_version == USER_VERSION
    &&& after.page_size == PAGE_SIZE
    &&& after.partitions@.len() == after.files@.len()
    &&& after.partitions@.take(files) == before.partitions@
    &&& forall|i: int|
        files <= i < after.files@.len() ==> partition_check(
            #[trigger] after.files@[i],
            after.partitions@[i],
        ) is Ok
    &&& after.bounds@.len() == after.metrics@.len()
    &&& after.bounds@.take(metrics) == before.bounds@
    &&& forall|i: int|
        metrics <= i < after.metrics@.len() ==> stored_metric_check(
            after,
            #[trigger] after.metrics@[i],
            after.bounds@[i],
        ) is Ok
}

/// What the head that publishes the append says of the image.
pub open spec fn next_expected(
    next: ExpectedImage,
    expected: ExpectedImage,
    before: ImageRows,
    input: AppendImage,
) -> bool {
    &&& next.table_id == expected.table_id
    &&& next.table_version == input.table_version
    &&& next.semantic_state == input.semantic_state
    &&& next.commit_id == input.commit_id
    &&& next.commit_hash == input.commit_hash
    &&& next.commit_uri@ == input.commit_uri@
    &&& next.reader_features_json@ == expected.reader_features_json@
    &&& next.writer_features_json@ == expected.writer_features_json@
    &&& next.reader_features@ == expected.reader_features@
    &&& next.writer_features@ == expected.writer_features@
    &&& next.previous_semantic_state == state_at(
        before.commits@,
        expected.table_version as int,
    )
}

// ------------------------------------------------------------------- commits

pub(crate) proof fn lemma_no_last_commit(commits: Seq<CommitRow>, expected: ExpectedImage)
    requires
        forall|i: int|
            0 <= i < commits.len() ==> (#[trigger] commits[i]).table_version
                != expected.table_version,
    ensures
        last_commits(commits, expected) == 0,
    decreases commits.len(),
{
    if commits.len() > 0 {
        assert(commits[commits.len() - 1].table_version != expected.table_version);
        let front = commits.drop_last();
        assert forall|i: int| 0 <= i < front.len() implies (#[trigger] front[i]).table_version
            != expected.table_version by {
            assert(front[i] == commits[i]);
        }
        lemma_no_last_commit(front, expected);
    }
}

pub(crate) proof fn lemma_no_intents(intents: Seq<IntentRow>, commit: CommitRow)
    requires
        forall|i: int|
            0 <= i < intents.len() ==> (#[trigger] intents[i]).table_version
                != commit.table_version,
    ensures
        intents_of(intents, commit) == 0,
    decreases intents.len(),
{
    if intents.len() > 0 {
        assert(intents[intents.len() - 1].table_version != commit.table_version);
        let front = intents.drop_last();
        assert forall|i: int| 0 <= i < front.len() implies (#[trigger] front[i]).table_version
            != commit.table_version by {
            assert(front[i] == intents[i]);
        }
        lemma_no_intents(front, commit);
    }
}

pub(crate) proof fn lemma_state_kept(commits: Seq<CommitRow>, last: CommitRow, version: int)
    requires
        last.table_version != version,
    ensures
        state_at(commits.push(last), version) == state_at(commits, version),
    decreases commits.len(),
{
    let all = commits.push(last);
    if commits.len() > 0 {
        assert(all[0] == commits[0]);
        assert(all.skip(1) =~= commits.skip(1).push(last));
        lemma_state_kept(commits.skip(1), last, version);
    } else {
        assert(all[0] == last);
        assert(all.skip(1) =~= commits);
    }
}

proof fn lemma_commits(
    before: ImageRows,
    after: ImageRows,
    input: AppendImage,
    expected: ExpectedImage,
    next: ExpectedImage,
)
    requires
        appended(after, before, input),
        fresh(before, input),
        next_in_line(before, input),
        next_expected(next, expected, before, input),
        input.table_version == expected.table_version + 1,
        input.table_version < i64::MAX,
        paired(before),
        contiguous(before.commits@, expected.table_version),
    ensures
        last_commits(after.commits@, next) == 1,
        paired(after),
        contiguous(after.commits@, next.table_version),
        state_at(after.commits@, expected.table_version as int) == next.previous_semantic_state,
{
    let n = before.commits@.len() as int;
    let last = after.commits@.last();
    assert(after.commits@ =~= before.commits@.push(last)) by {
        assert forall|i: int| 0 <= i < n implies after.commits@[i] == before.commits@[i] by {
            assert(after.commits@.take(n)[i] == after.commits@[i]);
        }
    }
    assert(after.commits@.drop_last() =~= before.commits@);
    assert forall|i: int| 0 <= i < n implies (#[trigger] before.commits@[i]).table_version
        != next.table_version by {}
    lemma_no_last_commit(before.commits@, next);
    let intent = after.intents@.last();
    assert(after.intents@.drop_last() =~= before.intents@) by {
        assert(after.intents@.take(before.intents@.len() as int) =~= after.intents@.drop_last());
    }
    assert forall|i: int| 0 <= i < after.commits@.len() implies (
    #[trigger] after.commits@[i]).intent_count == intents_of(after.intents@, after.commits@[i]) by {
        let commit = after.commits@[i];
        if i < n {
            assert(commit == before.commits@[i]);
            assert(before.commits@[i].table_version != input.table_version);
            assert(before.commits@[i].intent_count == intents_of(before.intents@, commit));
        } else {
            assert(commit == last);
            lemma_no_intents(before.intents@, commit);
        }
    }
    assert forall|i: int| 0 <= i < after.commits@.len() implies 0 <= (
    #[trigger] after.commits@[i]).table_version <= next.table_version by {
        if i < n {
            assert(after.commits@[i] == before.commits@[i]);
        }
    }
    let first = choose|i: int|
        0 <= i < n && (#[trigger] before.commits@[i]).table_version == 0;
    assert(after.commits@[first] == before.commits@[first]);
    assert(after.commits@[n] == last);
    lemma_state_kept(before.commits@, last, expected.table_version as int);
}

// ----------------------------------------------------------------- snapshots

/// The ref that an append moves is the one by that name.
pub(crate) proof fn lemma_ref_named(refs: Seq<RefRecord>, name: Seq<char>)
    requires
        ref_record(refs, name) is Some,
    ensures
        exists|i: int| 0 <= i < refs.len() && #[trigger] refs[i] == ref_record(refs, name)->0,
        ref_record(refs, name)->0.name@ == name,
    decreases refs.len(),
{
    if refs.len() > 0 {
        if refs[0].name@ == name {
            assert(refs[0] == ref_record(refs, name)->0);
        } else {
            let rest = refs.skip(1);
            lemma_ref_named(rest, name);
            let k = choose|k: int|
                0 <= k < rest.len() && #[trigger] rest[k] == ref_record(rest, name)->0;
            assert(refs[k + 1] == rest[k]);
        }
    }
}

/// Where the target ref stands.
spec fn target_at(before: ImageRows, input: AppendImage, t: int) -> bool {
    &&& 0 <= t < before.refs@.len()
    &&& before.refs@[t].name@ == input.target_ref@
    &&& before.refs@[t].ref_type@ == "branch"@
    &&& before.refs@[t].snapshot_id == input.parent_snapshot_id
    &&& forall|i: int|
        0 <= i < before.refs@.len() && i != t ==> (#[trigger] before.refs@[i]).name@
            != input.target_ref@
}

proof fn lemma_target(before: ImageRows, input: AppendImage) -> (t: int)
    requires
        fresh(before, input),
        next_in_line(before, input),
    ensures
        target_at(before, input, t),
{
    let refs = before.refs@;
    lemma_ref_named(refs, input.target_ref@);
    let target = ref_record(refs, input.target_ref@)->0;
    let t = choose|i: int| 0 <= i < refs.len() && #[trigger] refs[i] == target;
    assert forall|i: int| 0 <= i < refs.len() && i != t implies (#[trigger] refs[i]).name@
        != input.target_ref@ by {
        if i < t {
            assert(refs[i].name@ != refs[t].name@);
        } else {
            assert(refs[t].name@ != refs[i].name@);
        }
    }
    t
}

spec fn snapshots_grow(after: ImageRows, before: ImageRows) -> bool {
    &&& after.snapshots@.len() == before.snapshots@.len() + 1
    &&& forall|i: int|
        0 <= i < before.snapshots@.len() ==> #[trigger] after.snapshots@[i]
            == before.snapshots@[i]
    &&& after.snapshots@[before.snapshots@.len() as int] == after.snapshots@.last()
}

proof fn lemma_snapshots_grow(after: ImageRows, before: ImageRows, input: AppendImage)
    requires
        appended(after, before, input),
    ensures
        snapshots_grow(after, before),
{
    let n = before.snapshots@.len() as int;
    assert forall|i: int| 0 <= i < n implies #[trigger] after.snapshots@[i]
        == before.snapshots@[i] by {
        assert(after.snapshots@.take(n)[i] == after.snapshots@[i]);
    }
}

proof fn lemma_history(
    before: ImageRows,
    after: ImageRows,
    input: AppendImage,
    version: int,
)
    requires
        appended(after, before, input),
        fresh(before, input),
        next_in_line(before, input),
        input.table_version == version + 1,
        input.table_version < i64::MAX,
        version >= 0,
        input.sequence_number <= i64::MAX,
        history_holds(before, version, before.meta.last_sequence_number),
        refs_resolve(before),
    ensures
        history_holds(after, version + 1, after.meta.last_sequence_number),
        refs_resolve(after),
{
    let old_rows = before.snapshots@;
    let rows = after.snapshots@;
    let n = old_rows.len() as int;
    lemma_snapshots_grow(after, before, input);
    let last = rows.last();
    assert(rows[n] == last);
    let t = lemma_target(before, input);
    assert forall|i: int| 0 <= i < rows.len() implies snapshot_in_range(
        #[trigger] rows[i],
        version + 1,
    ) by {
        if i < n {
            assert(rows[i] == old_rows[i]);
            assert(snapshot_in_range(old_rows[i], version));
        }
    }
    assert forall|i: int, j: int| 0 <= i < j < rows.len() implies crate::image::apart(
        #[trigger] rows[i],
        #[trigger] rows[j],
    ) by {
        assert(rows[i] == old_rows[i]);
        if j < n {
            assert(rows[j] == old_rows[j]);
            assert(crate::image::apart(old_rows[i], old_rows[j]));
        } else {
            assert(old_rows[i].row.sequence_number <= before.meta.last_sequence_number);
            assert(snapshot_in_range(old_rows[i], version));
        }
    }
    assert forall|i: int| 0 <= i < rows.len() implies (
    #[trigger] rows[i]).row.sequence_number <= after.meta.last_sequence_number by {
        if i < n {
            assert(rows[i] == old_rows[i]);
        }
    }
    assert forall|i: int| 0 <= i < rows.len() implies follows_parent(rows, #[trigger] rows[i]) by {
        if let Some(parent) = rows[i].row.parent_snapshot_id {
            if i < n {
                assert(rows[i] == old_rows[i]);
                assert(follows_parent(old_rows, old_rows[i]));
                let k = choose|k: int|
                    {
                        &&& 0 <= k < old_rows.len()
                        &&& (#[trigger] old_rows[k]).row.snapshot_id == parent
                        &&& old_rows[k].row.sequence_number < old_rows[i].row.sequence_number
                        &&& old_rows[k].committed_table_version
                            < old_rows[i].committed_table_version
                    };
                assert(rows[k] == old_rows[k]);
            } else {
                assert(before.refs@[t].snapshot_id == Some(parent));
                assert(has_snapshot(old_rows, parent));
                let k = choose|k: int|
                    0 <= k < old_rows.len() && (#[trigger] old_rows[k]).row.snapshot_id == parent;
                assert(rows[k] == old_rows[k]);
                assert(old_rows[k].row.sequence_number <= before.meta.last_sequence_number);
                assert(snapshot_in_range(old_rows[k], version));
            }
        }
    }
    assert forall|i: int| 0 <= i < after.refs@.len() implies ref_in_shape(
        #[trigger] after.refs@[i],
        version + 1,
    ) by {
        assert(moved_ref(after.refs@[i], before.refs@[i], input));
        assert(ref_in_shape(before.refs@[i], version));
    }
    let m = choose|i: int| 0 <= i < before.refs@.len() && is_main(#[trigger] before.refs@[i]);
    assert(moved_ref(after.refs@[m], before.refs@[m], input));
    assert(is_main(after.refs@[m]));
    assert forall|i: int| 0 <= i < after.refs@.len() implies ((
    #[trigger] after.refs@[i]).snapshot_id matches Some(id) ==> has_snapshot(rows, id)) by {
        assert(moved_ref(after.refs@[i], before.refs@[i], input));
        if let Some(id) = after.refs@[i].snapshot_id {
            if id == input.snapshot_id {
                assert(rows[n].row.snapshot_id == id);
            } else {
                assert(has_snapshot(old_rows, before.refs@[i].snapshot_id->0));
                let k = choose|k: int|
                    0 <= k < old_rows.len() && (#[trigger] old_rows[k]).row.snapshot_id == id;
                assert(rows[k] == old_rows[k]);
            }
        }
    }
}

// ------------------------------------------------------------------- lineage

proof fn lemma_snapshot_absent(rows: Seq<SnapshotRow>, id: Id)
    requires
        forall|i: int| 0 <= i < rows.len() ==> (#[trigger] rows[i]).snapshot_id != id,
    ensures
        snapshot_of(rows, id) is None,
    decreases rows.len(),
{
    if rows.len() > 0 {
        assert(rows[0].snapshot_id != id);
        let rest = rows.skip(1);
        assert forall|i: int| 0 <= i < rest.len() implies (#[trigger] rest[i]).snapshot_id
            != id by {
            assert(rest[i] == rows[i + 1]);
        }
        lemma_snapshot_absent(rest, id);
    }
}

proof fn lemma_snapshot_found(rows: Seq<SnapshotRow>, id: Id)
    ensures
        snapshot_of(rows, id) matches Some(row) ==> exists|i: int|
            0 <= i < rows.len() && #[trigger] rows[i] == row,
    decreases rows.len(),
{
    if rows.len() > 0 {
        if rows[0].snapshot_id != id {
            let rest = rows.skip(1);
            lemma_snapshot_found(rest, id);
            if let Some(row) = snapshot_of(rest, id) {
                let k = choose|k: int| 0 <= k < rest.len() && #[trigger] rest[k] == row;
                assert(rows[k + 1] == row);
            }
        } else {
            assert(rows[0] == snapshot_of(rows, id)->0);
        }
    }
}

proof fn lemma_snapshot_pushed(rows: Seq<SnapshotRow>, last: SnapshotRow, id: Id)
    ensures
        snapshot_of(rows.push(last), id) == (match snapshot_of(rows, id) {
            Some(row) => Some(row),
            None => if last.snapshot_id == id {
                Some(last)
            } else {
                None
            },
        }),
    decreases rows.len(),
{
    let all = rows.push(last);
    if rows.len() > 0 {
        assert(all[0] == rows[0]);
        assert(all.skip(1) =~= rows.skip(1).push(last));
        lemma_snapshot_pushed(rows.skip(1), last, id);
    } else {
        assert(all[0] == last);
        assert(all.skip(1) =~= rows);
    }
}

/// A lineage that ended well is not changed by one more snapshot.
proof fn lemma_lineage_kept(
    rows: Seq<SnapshotRow>,
    last: SnapshotRow,
    tip: Option<Id>,
    seen: Seq<Id>,
    bound: int,
)
    requires
        lineage(Walk::History, rows, tip, seen, bound) is Ok,
    ensures
        lineage(Walk::History, rows.push(last), tip, seen, bound) == lineage(
            Walk::History,
            rows,
            tip,
            seen,
            bound,
        ),
    decreases bound,
{
    if let Some(id) = tip {
        lemma_snapshot_pushed(rows, last, id);
        let row = snapshot_of(rows, id)->0;
        lemma_lineage_kept(
            rows,
            last,
            row.parent_snapshot_id,
            seen.push(id),
            row.sequence_number as int,
        );
    }
}

/// A snapshot that is not stored may stand before a lineage whose first sequence
/// number is below its own.
proof fn lemma_lineage_behind(
    rows: Seq<SnapshotRow>,
    front: Id,
    tip: Option<Id>,
    seen: Seq<Id>,
    bound: int,
    tighter: int,
)
    requires
        lineage(Walk::History, rows, tip, seen, bound) is Ok,
        snapshot_of(rows, front) is None,
        tip matches Some(id) ==> (snapshot_of(rows, id) matches Some(row) ==> row.sequence_number
            < tighter),
    ensures
        lineage(Walk::History, rows, tip, seq![front] + seen, tighter) == Ok::<Seq<Id>, ErrorView>(
            seq![front] + lineage(Walk::History, rows, tip, seen, bound)->Ok_0,
        ),
    decreases bound,
{
    if let Some(id) = tip {
        let row = snapshot_of(rows, id)->0;
        let longer = seq![front] + seen;
        if longer.contains(id) {
            let k = choose|k: int| 0 <= k < longer.len() && longer[k] == id;
            if k > 0 {
                assert(seen[k - 1] == id);
            }
        }
        assert(longer.push(id) =~= seq![front] + seen.push(id));
        lemma_lineage_behind(
            rows,
            front,
            row.parent_snapshot_id,
            seen.push(id),
            row.sequence_number as int,
            row.sequence_number as int,
        );
    }
}

// ---------------------------------------------------------------- membership

/// Where the rows of the append stand behind those that were there.
pub open spec fn rows_grow(after: ImageRows, before: ImageRows, input: AppendImage) -> bool {
    let n = input.files@.len();
    &&& after.changes@.len() == before.changes@.len() + n
    &&& forall|i: int|
        0 <= i < before.changes@.len() ==> #[trigger] after.changes@[i] == before.changes@[i]
    &&& forall|i: int|
        before.changes@.len() <= i < after.changes@.len() ==> change_row_from(
            #[trigger] after.changes@[i],
            input.files@[i - before.changes@.len()],
            input,
        )
    &&& after.live@.len() == before.live@.len() + n
    &&& forall|i: int|
        0 <= i < before.live@.len() ==> #[trigger] after.live@[i] == before.live@[i]
    &&& forall|i: int|
        before.live@.len() <= i < after.live@.len() ==> live_row_from(
            #[trigger] after.live@[i],
            input.files@[i - before.live@.len()],
            input,
        )
    &&& after.files@.len() == before.files@.len() + n
    &&& forall|i: int|
        0 <= i < before.files@.len() ==> #[trigger] after.files@[i] == before.files@[i]
    &&& forall|i: int|
        before.files@.len() <= i < after.files@.len() ==> file_row_from(
            #[trigger] after.files@[i],
            input.files@[i - before.files@.len()],
            input,
        )
}

pub(crate) proof fn lemma_rows_grow(after: ImageRows, before: ImageRows, input: AppendImage)
    requires
        appended(after, before, input),
    ensures
        rows_grow(after, before, input),
{
    let changes = before.changes@.len() as int;
    let live = before.live@.len() as int;
    let files = before.files@.len() as int;
    assert forall|i: int| 0 <= i < changes implies #[trigger] after.changes@[i]
        == before.changes@[i] by {
        assert(after.changes@.take(changes)[i] == after.changes@[i]);
    }
    assert forall|i: int| changes <= i < after.changes@.len() implies change_row_from(
        #[trigger] after.changes@[i],
        input.files@[i - changes],
        input,
    ) by {
        assert(after.changes@[changes + (i - changes)] == after.changes@[i]);
    }
    assert forall|i: int| 0 <= i < live implies #[trigger] after.live@[i] == before.live@[i] by {
        assert(after.live@.take(live)[i] == after.live@[i]);
    }
    assert forall|i: int| live <= i < after.live@.len() implies live_row_from(
        #[trigger] after.live@[i],
        input.files@[i - live],
        input,
    ) by {
        assert(after.live@[live + (i - live)] == after.live@[i]);
    }
    assert forall|i: int| 0 <= i < files implies #[trigger] after.files@[i]
        == before.files@[i] by {
        assert(after.files@.take(files)[i] == after.files@[i]);
    }
    assert forall|i: int| files <= i < after.files@.len() implies file_row_from(
        #[trigger] after.files@[i],
        input.files@[i - files],
        input,
    ) by {
        assert(after.files@[files + (i - files)] == after.files@[i]);
    }
}

proof fn lemma_added(
    after: ImageRows,
    before: ImageRows,
    input: AppendImage,
    snapshot: Id,
    file: Id,
)
    requires
        rows_grow(after, before, input),
        fresh(before, input),
    ensures
        snapshot != input.snapshot_id ==> added(after.changes@, snapshot, file) == added(
            before.changes@,
            snapshot,
            file,
        ),
        added(after.changes@, input.snapshot_id, file) == exists|k: int|
            0 <= k < input.files@.len() && (#[trigger] input.files@[k]).file_id == file,
{
    let n = before.changes@.len() as int;
    if snapshot != input.snapshot_id {
        if added(before.changes@, snapshot, file) {
            let i = choose|i: int|
                0 <= i < n && (#[trigger] before.changes@[i]).snapshot_id == snapshot
                    && before.changes@[i].file_id == file && before.changes@[i].change_kind@
                    == "add"@;
            assert(after.changes@[i] == before.changes@[i]);
        }
        if added(after.changes@, snapshot, file) {
            let i = choose|i: int|
                0 <= i < after.changes@.len() && (#[trigger] after.changes@[i]).snapshot_id
                    == snapshot && after.changes@[i].file_id == file
                    && after.changes@[i].change_kind@ == "add"@;
            assert(i < n);
            assert(after.changes@[i] == before.changes@[i]);
        }
    }
    if added(after.changes@, input.snapshot_id, file) {
        let i = choose|i: int|
            0 <= i < after.changes@.len() && (#[trigger] after.changes@[i]).snapshot_id
                == input.snapshot_id && after.changes@[i].file_id == file
                && after.changes@[i].change_kind@ == "add"@;
        if i < n {
            assert(after.changes@[i] == before.changes@[i]);
            assert(before.changes@[i].snapshot_id != input.snapshot_id);
        }
        assert(input.files@[i - n].file_id == file);
    }
    if exists|k: int|
        0 <= k < input.files@.len() && (#[trigger] input.files@[k]).file_id == file {
        let k = choose|k: int|
            0 <= k < input.files@.len() && (#[trigger] input.files@[k]).file_id == file;
        assert(change_row_from(after.changes@[n + k], input.files@[n + k - n], input));
    }
}

proof fn lemma_sequence(
    after: ImageRows,
    before: ImageRows,
    input: AppendImage,
    id: Id,
    sequence: i64,
)
    requires
        snapshots_grow(after, before),
        next_in_line(before, input),
        after.snapshots@.last().row.snapshot_id == input.snapshot_id,
        after.snapshots@.last().row.sequence_number == input.sequence_number,
    ensures
        id != input.snapshot_id ==> has_sequence(after.snapshots@, id, sequence) == has_sequence(
            before.snapshots@,
            id,
            sequence,
        ),
        has_sequence(after.snapshots@, input.snapshot_id, sequence) == (sequence
            == input.sequence_number),
{
    let n = before.snapshots@.len() as int;
    if has_sequence(before.snapshots@, id, sequence) {
        let i = choose|i: int|
            0 <= i < n && (#[trigger] before.snapshots@[i]).row.snapshot_id == id
                && before.snapshots@[i].row.sequence_number == sequence;
        assert(after.snapshots@[i] == before.snapshots@[i]);
    }
    if has_sequence(after.snapshots@, id, sequence) {
        let i = choose|i: int|
            0 <= i < after.snapshots@.len() && (#[trigger] after.snapshots@[i]).row.snapshot_id
                == id && after.snapshots@[i].row.sequence_number == sequence;
        if i < n {
            assert(after.snapshots@[i] == before.snapshots@[i]);
            assert(before.snapshots@[i].row.snapshot_id == id);
        }
    }
    if has_sequence(after.snapshots@, input.snapshot_id, sequence) {
        let i = choose|i: int|
            0 <= i < after.snapshots@.len() && (#[trigger] after.snapshots@[i]).row.snapshot_id
                == input.snapshot_id && after.snapshots@[i].row.sequence_number == sequence;
        if i < n {
            assert(after.snapshots@[i] == before.snapshots@[i]);
            assert(before.snapshots@[i].row.snapshot_id != input.snapshot_id);
        }
    }
    assert(after.snapshots@[n].row.snapshot_id == input.snapshot_id);
}

spec fn lists(row: LiveRow, name: Seq<char>, m: Membership) -> bool {
    &&& row.ref_name@ == name
    &&& row.file_id == m.file_id
    &&& row.added_snapshot_id == m.snapshot_id
    &&& row.data_sequence_number == m.data_sequence
    &&& row.file_sequence_number == m.file_sequence
}

proof fn lemma_listed(
    after: ImageRows,
    before: ImageRows,
    input: AppendImage,
    name: Seq<char>,
    m: Membership,
)
    requires
        rows_grow(after, before, input),
    ensures
        listed(after, name, m) == (listed(before, name, m) || (name == input.target_ref@
            && m.snapshot_id == input.snapshot_id && m.data_sequence == input.sequence_number
            && m.file_sequence == input.sequence_number && exists|k: int|
            0 <= k < input.files@.len() && (#[trigger] input.files@[k]).file_id == m.file_id)),
{
    let n = before.live@.len() as int;
    if listed(before, name, m) {
        let i = choose|i: int| 0 <= i < n && lists(#[trigger] before.live@[i], name, m);
        assert(after.live@[i] == before.live@[i]);
    }
    if name == input.target_ref@ && m.snapshot_id == input.snapshot_id && m.data_sequence
        == input.sequence_number && m.file_sequence == input.sequence_number && exists|k: int|
        0 <= k < input.files@.len() && (#[trigger] input.files@[k]).file_id == m.file_id {
        let k = choose|k: int|
            0 <= k < input.files@.len() && (#[trigger] input.files@[k]).file_id == m.file_id;
        assert(live_row_from(after.live@[n + k], input.files@[n + k - n], input));
    }
    if listed(after, name, m) {
        let i = choose|i: int|
            0 <= i < after.live@.len() && lists(#[trigger] after.live@[i], name, m);
        if i < n {
            assert(after.live@[i] == before.live@[i]);
        } else {
            assert(input.files@[i - n].file_id == m.file_id);
        }
    }
}

proof fn lemma_other_ref(
    before: ImageRows,
    after: ImageRows,
    input: AppendImage,
    name: Seq<char>,
    chain: Seq<Id>,
)
    requires
        appended(after, before, input),
        fresh(before, input),
        next_in_line(before, input),
        name != input.target_ref@,
        !chain.contains(input.snapshot_id),
        membership_agrees(before, name, chain),
    ensures
        membership_agrees(after, name, chain),
{
    lemma_rows_grow(after, before, input);
    lemma_snapshots_grow(after, before, input);
    assert forall|m: Membership| #[trigger] listed(after, name, m) <==> belongs(
        after,
        chain,
        m,
    ) by {
        lemma_listed(after, before, input, name, m);
        lemma_added(after, before, input, m.snapshot_id, m.file_id);
        lemma_sequence(after, before, input, m.snapshot_id, m.data_sequence);
        assert(listed(before, name, m) <==> belongs(before, chain, m));
    }
}

proof fn lemma_target_ref(
    before: ImageRows,
    after: ImageRows,
    input: AppendImage,
    chain: Seq<Id>,
)
    requires
        appended(after, before, input),
        fresh(before, input),
        next_in_line(before, input),
        !chain.contains(input.snapshot_id),
        membership_agrees(before, input.target_ref@, chain),
    ensures
        membership_agrees(after, input.target_ref@, seq![input.snapshot_id] + chain),
{
    lemma_rows_grow(after, before, input);
    lemma_snapshots_grow(after, before, input);
    let name = input.target_ref@;
    let longer = seq![input.snapshot_id] + chain;
    assert(longer[0] == input.snapshot_id);
    assert forall|m: Membership| #[trigger] listed(after, name, m) <==> belongs(
        after,
        longer,
        m,
    ) by {
        lemma_listed(after, before, input, name, m);
        lemma_added(after, before, input, m.snapshot_id, m.file_id);
        lemma_sequence(after, before, input, m.snapshot_id, m.data_sequence);
        assert(listed(before, name, m) <==> belongs(before, chain, m));
        if m.snapshot_id == input.snapshot_id {
            assert(longer.contains(m.snapshot_id));
        } else if chain.contains(m.snapshot_id) {
            let k = choose|k: int| 0 <= k < chain.len() && chain[k] == m.snapshot_id;
            assert(longer[k + 1] == m.snapshot_id);
        } else if longer.contains(m.snapshot_id) {
            let k = choose|k: int| 0 <= k < longer.len() && longer[k] == m.snapshot_id;
            assert(chain[k - 1] == m.snapshot_id);
        }
    }
}

pub(crate) proof fn lemma_refs_checked(rows: ImageRows, refs: Seq<RefRecord>)
    ensures
        refs_check(rows, refs) is Ok <==> forall|i: int|
            0 <= i < refs.len() ==> ref_check(rows, #[trigger] refs[i]) is Ok,
    decreases refs.len(),
{
    if refs.len() > 0 {
        let rest = refs.skip(1);
        lemma_refs_checked(rows, rest);
        if refs_check(rows, refs) is Ok {
            assert forall|i: int| 0 <= i < refs.len() implies ref_check(
                rows,
                #[trigger] refs[i],
            ) is Ok by {
                if i > 0 {
                    assert(rest[i - 1] == refs[i]);
                }
            }
        }
        if forall|i: int| 0 <= i < refs.len() ==> ref_check(rows, #[trigger] refs[i]) is Ok {
            assert(ref_check(rows, refs[0]) is Ok);
            assert forall|i: int| 0 <= i < rest.len() implies ref_check(
                rows,
                #[trigger] rest[i],
            ) is Ok by {
                assert(rest[i] == refs[i + 1]);
            }
        }
    }
}

proof fn lemma_refs(
    before: ImageRows,
    after: ImageRows,
    input: AppendImage,
)
    requires
        appended(after, before, input),
        fresh(before, input),
        next_in_line(before, input),
        input.sequence_number <= i64::MAX,
        forall|i: int|
            0 <= i < before.snapshots@.len() ==> (
            #[trigger] before.snapshots@[i]).row.sequence_number
                <= before.meta.last_sequence_number,
        before.meta.last_sequence_number >= 0,
        refs_check(before, before.refs@) is Ok,
    ensures
        refs_check(after, after.refs@) is Ok,
{
    let t = lemma_target(before, input);
    lemma_snapshots_grow(after, before, input);
    let rows = snapshot_rows(before.snapshots@);
    let last = after.snapshots@.last().row;
    assert(snapshot_rows(after.snapshots@) =~= rows.push(last));
    assert forall|i: int| 0 <= i < rows.len() implies (#[trigger] rows[i]).snapshot_id
        != input.snapshot_id by {
        assert(rows[i] == before.snapshots@[i].row);
    }
    lemma_snapshot_absent(rows, input.snapshot_id);
    lemma_snapshot_pushed(rows, last, input.snapshot_id);
    lemma_refs_checked(before, before.refs@);
    let none: Seq<Id> = Seq::empty();
    let top = u64::MAX as int;
    assert forall|i: int| 0 <= i < after.refs@.len() implies ref_check(
        after,
        #[trigger] after.refs@[i],
    ) is Ok by {
        let r = before.refs@[i];
        assert(moved_ref(after.refs@[i], r, input));
        assert(ref_check(before, r) is Ok);
        let tip = if r.ref_type@ == "branch"@ {
            r.snapshot_id
        } else {
            None
        };
        let chain = lineage(Walk::History, rows, tip, none, top)->Ok_0;
        lemma_lineage(Walk::History, rows, tip);
        if chain.contains(input.snapshot_id) {
            let k = choose|k: int| 0 <= k < chain.len() && chain[k] == input.snapshot_id;
            assert(snapshot_of(rows, chain[k]) is Some);
        }
        if i == t {
            if let Some(parent) = tip {
                lemma_snapshot_found(rows, parent);
                if let Some(row) = snapshot_of(rows, parent) {
                    let k = choose|k: int| 0 <= k < rows.len() && #[trigger] rows[k] == row;
                    assert(before.snapshots@[k].row == row);
                }
            }
            let sequence = input.sequence_number as int;
            lemma_lineage_behind(rows, input.snapshot_id, tip, none, top, sequence);
            let front = seq![input.snapshot_id];
            assert(front + none =~= front);
            assert(none.push(input.snapshot_id) =~= front);
            lemma_lineage_kept(rows, last, tip, front, sequence);
            assert(lineage(Walk::History, rows.push(last), Some(input.snapshot_id), none, top)
                == lineage(Walk::History, rows.push(last), tip, front, sequence)) by {
                assert(!none.contains(input.snapshot_id));
            }
            lemma_target_ref(before, after, input, chain);
        } else {
            assert(before.refs@[i].name@ != input.target_ref@);
            lemma_lineage_kept(rows, last, tip, none, top);
            lemma_other_ref(before, after, input, r.name@, chain);
        }
    }
    lemma_refs_checked(after, after.refs@);
}

// --------------------------------------------------------------- descriptors

proof fn lemma_partitions_checked(files: Seq<FileRecord>, facts: Seq<PartitionFacts>)
    requires
        files.len() == facts.len(),
    ensures
        partitions_check(files, facts) is Ok <==> forall|i: int|
            0 <= i < files.len() ==> partition_check(#[trigger] files[i], facts[i]) is Ok,
    decreases files.len(),
{
    if files.len() > 0 {
        let rest = files.skip(1);
        let others = facts.skip(1);
        lemma_partitions_checked(rest, others);
        if partitions_check(files, facts) is Ok {
            assert forall|i: int| 0 <= i < files.len() implies partition_check(
                #[trigger] files[i],
                facts[i],
            ) is Ok by {
                if i > 0 {
                    assert(partition_check(rest[i - 1], others[i - 1]) is Ok);
                }
            }
        }
        if forall|i: int|
            0 <= i < files.len() ==> partition_check(#[trigger] files[i], facts[i]) is Ok {
            assert(partition_check(files[0], facts[0]) is Ok);
            assert forall|i: int| 0 <= i < rest.len() implies partition_check(
                #[trigger] rest[i],
                others[i],
            ) is Ok by {
                assert(partition_check(files[i + 1], facts[i + 1]) is Ok);
            }
        }
    }
}

pub(crate) proof fn lemma_metrics_checked(
    rows: ImageRows,
    metrics: Seq<MetricRecord>,
    facts: Seq<MetricFacts>,
)
    requires
        metrics.len() == facts.len(),
    ensures
        stored_metrics_check(rows, metrics, facts) is Ok <==> forall|i: int|
            0 <= i < metrics.len() ==> stored_metric_check(
                rows,
                #[trigger] metrics[i],
                facts[i],
            ) is Ok,
    decreases metrics.len(),
{
    if metrics.len() > 0 {
        let rest = metrics.skip(1);
        let others = facts.skip(1);
        lemma_metrics_checked(rows, rest, others);
        if stored_metrics_check(rows, metrics, facts) is Ok {
            assert forall|i: int| 0 <= i < metrics.len() implies stored_metric_check(
                rows,
                #[trigger] metrics[i],
                facts[i],
            ) is Ok by {
                if i > 0 {
                    assert(stored_metric_check(rows, rest[i - 1], others[i - 1]) is Ok);
                }
            }
        }
        if forall|i: int|
            0 <= i < metrics.len() ==> stored_metric_check(
                rows,
                #[trigger] metrics[i],
                facts[i],
            ) is Ok {
            assert(stored_metric_check(rows, metrics[0], facts[0]) is Ok);
            assert forall|i: int| 0 <= i < rest.len() implies stored_metric_check(
                rows,
                #[trigger] rest[i],
                others[i],
            ) is Ok by {
                assert(stored_metric_check(rows, metrics[i + 1], facts[i + 1]) is Ok);
            }
        }
    }
}

proof fn lemma_file_schema_kept(before: Seq<FileRecord>, after: Seq<FileRecord>, id: Id)
    requires
        before.len() <= after.len(),
        forall|i: int| 0 <= i < before.len() ==> #[trigger] after[i] == before[i],
        forall|i: int| before.len() <= i < after.len() ==> (#[trigger] after[i]).file_id != id,
    ensures
        file_schema(after, id) == file_schema(before, id),
    decreases after.len(),
{
    if before.len() == 0 {
        if after.len() > 0 {
            assert(after[0].file_id != id);
            let longer = after.skip(1);
            assert forall|i: int| 0 <= i < longer.len() implies (#[trigger] longer[i]).file_id
                != id by {
                assert(longer[i] == after[i + 1]);
            }
            lemma_file_schema_kept(before, longer, id);
        }
    } else {
        assert(after[0] == before[0]);
        if before[0].file_id != id {
            let rest = before.skip(1);
            let longer = after.skip(1);
            assert forall|i: int| 0 <= i < rest.len() implies #[trigger] longer[i] == rest[i] by {
                assert(after[i + 1] == before[i + 1]);
            }
            assert forall|i: int| rest.len() <= i < longer.len() implies (
            #[trigger] longer[i]).file_id != id by {
                assert(longer[i] == after[i + 1]);
            }
            lemma_file_schema_kept(rest, longer, id);
        }
    }
}

proof fn lemma_descriptors(before: ImageRows, after: ImageRows, input: AppendImage)
    requires
        appended(after, before, input),
        fresh(before, input),
        still_sound(after, before),
        crate::image::facts_complete(before),
        descriptors_check(before) is Ok,
    ensures
        descriptors_check(after) is Ok,
{
    lemma_rows_grow(after, before, input);
    lemma_partitions_checked(before.files@, before.partitions@);
    let files = before.files@.len() as int;
    assert forall|i: int| 0 <= i < after.files@.len() implies partition_check(
        #[trigger] after.files@[i],
        after.partitions@[i],
    ) is Ok by {
        if i < files {
            assert(after.partitions@.take(files)[i] == after.partitions@[i]);
            assert(partition_check(before.files@[i], before.partitions@[i]) is Ok);
        }
    }
    lemma_partitions_checked(after.files@, after.partitions@);
    lemma_metrics_checked(before, before.metrics@, before.bounds@);
    let metrics = before.metrics@.len() as int;
    assert forall|i: int| 0 <= i < after.metrics@.len() implies stored_metric_check(
        after,
        #[trigger] after.metrics@[i],
        after.bounds@[i],
    ) is Ok by {
        if i < metrics {
            assert(after.bounds@.take(metrics)[i] == after.bounds@[i]);
            assert(after.metrics@.take(metrics)[i] == after.metrics@[i]);
            let metric = before.metrics@[i];
            assert(stored_metric_check(before, metric, before.bounds@[i]) is Ok);
            assert forall|k: int| files <= k < after.files@.len() implies (
            #[trigger] after.files@[k]).file_id != metric.file_id by {
                assert(before.metrics@[i].file_id != input.files@[k - files].file_id);
            }
            lemma_file_schema_kept(before.files@, after.files@, metric.file_id);
        }
    }
    lemma_metrics_checked(after, after.metrics@, after.bounds@);
}

proof fn lemma_profile(before: ImageRows, after: ImageRows, input: AppendImage)
    requires
        appended(after, before, input),
        fresh(before, input),
        next_in_line(before, input),
        live_is_backed(before),
        in_profile(before),
    ensures
        live_is_backed(after),
        in_profile(after),
{
    lemma_rows_grow(after, before, input);
    lemma_snapshots_grow(after, before, input);
    let files = before.files@.len() as int;
    let live = before.live@.len() as int;
    assert forall|i: int| 0 <= i < after.live@.len() implies has_file(
        after.files@,
        (#[trigger] after.live@[i]).file_id,
    ) && added(after.changes@, after.live@[i].added_snapshot_id, after.live@[i].file_id) by {
        let row = after.live@[i];
        lemma_added(after, before, input, row.added_snapshot_id, row.file_id);
        if i < live {
            assert(row == before.live@[i]);
            let k = choose|k: int|
                0 <= k < before.files@.len() && (#[trigger] before.files@[k]).file_id
                    == row.file_id;
            assert(after.files@[k] == before.files@[k]);
            assert(added(before.changes@, row.added_snapshot_id, row.file_id));
            let c = choose|c: int|
                0 <= c < before.changes@.len() && (#[trigger] before.changes@[c]).snapshot_id
                    == row.added_snapshot_id && before.changes@[c].file_id == row.file_id
                    && before.changes@[c].change_kind@ == "add"@;
            assert(before.changes@[c].snapshot_id != input.snapshot_id);
        } else {
            let k = i - live;
            assert(after.files@[files + k].file_id == input.files@[files + k - files].file_id);
            assert(input.files@[k].file_id == row.file_id);
        }
    }
    assert forall|i: int| 0 <= i < after.changes@.len() implies (
    #[trigger] after.changes@[i]).change_kind@ == "add"@ by {
        if i < before.changes@.len() {
            assert(after.changes@[i] == before.changes@[i]);
        }
    }
    assert forall|i: int| 0 <= i < after.snapshots@.len() implies (
    #[trigger] after.snapshots@[i]).operation@ == "append"@ by {
        if i < before.snapshots@.len() {
            assert(after.snapshots@[i] == before.snapshots@[i]);
        }
    }
    assert forall|i: int| 0 <= i < after.files@.len() implies file_in_profile(
        #[trigger] after.files@[i],
    ) by {
        if i < files {
            assert(after.files@[i] == before.files@[i]);
            assert(file_in_profile(before.files@[i]));
        } else {
            assert(input.files@[i - files].partition_spec_id == 0);
        }
    }
}

/// An append that continues a branch of a valid image gives an image that is
/// valid for the head that publishes it.
pub proof fn lemma_append_keeps_the_image_valid(
    before: ImageRows,
    after: ImageRows,
    input: AppendImage,
    expected: ExpectedImage,
    next: ExpectedImage,
)
    requires
        crate::image::facts_complete(before),
        image_check(before, expected) is Ok,
        append_check(before, input) is Ok,
        input.table_version < i64::MAX,
        appended(after, before, input),
        fresh(before, input),
        next_in_line(before, input),
        still_sound(after, before),
        next_expected(next, expected, before, input),
    ensures
        image_check(after, next) is Ok,
{
    assert(meta_matches(before.meta, expected));
    let version = expected.table_version as int;
    lemma_commits(before, after, input, expected, next);
    assert(history_check(before, expected.table_version, before.meta.last_sequence_number) is Ok);
    lemma_history(before, after, input, version);
    lemma_profile(before, after, input);
    lemma_refs(before, after, input);
    lemma_descriptors(before, after, input);
    assert(meta_matches(after.meta, next));
    assert(history_check(after, next.table_version, after.meta.last_sequence_number) is Ok);
}

} // verus!

//! What holds of a table whose rows were found to be sound.
use crate::catalog::{lineage, SnapshotRow, Walk};
use crate::error::{ErrorView, RuntimeError};
use crate::hash::Id;
use crate::image::{
    belongs, facts_complete, has_sequence, is_last_commit, last_commits,
    lemma_contiguous_has_every_version, listed, membership_agrees, ref_check, refs_check,
    snapshot_rows, state_at, validate, ExpectedImage, Membership,
};
use crate::laws::lineages::{leads_back, least_of, lemma_walk_finds_the_lineage};
use crate::tables::{CommitRow, ImageRows, RefRecord};
use vstd::prelude::*;

verus! {

/// A commit is of a version.
pub open spec fn is_at(commits: Seq<CommitRow>, i: int, version: int) -> bool {
    0 <= i < commits.len() && commits[i].table_version == version
}

/// Every version has its commit.
pub open spec fn has_commit(commits: Seq<CommitRow>, version: int) -> bool {
    exists|i: int| #[trigger] is_at(commits, i, version)
}

/// The row is that of the commit that the head names.
pub open spec fn is_heads(commit: CommitRow, expected: ExpectedImage) -> bool {
    &&& commit.table_version == expected.table_version
    &&& commit.commit_id == expected.commit_id
    &&& commit.semantic_state == expected.semantic_state
    &&& commit.sha256 == expected.commit_hash
    &&& commit.uri@ == expected.commit_uri@
}

proof fn lemma_last(commits: Seq<CommitRow>, expected: ExpectedImage) -> (i: int)
    requires
        last_commits(commits, expected) > 0,
    ensures
        0 <= i < commits.len(),
        is_heads(commits[i], expected),
    decreases commits.len(),
{
    let n = commits.len() - 1;
    if is_last_commit(commits.last(), expected) {
        n
    } else {
        lemma_last(commits.drop_last(), expected)
    }
}

proof fn lemma_state(commits: Seq<CommitRow>, version: int) -> (i: int)
    ensures
        match state_at(commits, version) {
            Some(state) => is_at(commits, i, version) && commits[i].semantic_state == state,
            None => forall|k: int| !#[trigger] is_at(commits, k, version),
        },
    decreases commits.len(),
{
    if commits.len() == 0 || commits[0].table_version == version {
        0
    } else {
        let rest = commits.skip(1);
        let i = lemma_state(rest, version);
        assert forall|k: int| 0 < k < commits.len() implies #[trigger] commits[k] == rest[k
            - 1] by {}
        if state_at(rest, version) is None {
            assert forall|k: int| !#[trigger] is_at(commits, k, version) by {
                if is_at(commits, k, version) {
                    assert(is_at(rest, k - 1, version));
                }
            }
        }
        i + 1
    }
}

/// The snapshots of a table, as far as their order goes.
pub open spec fn order_of(rows: ImageRows) -> Seq<SnapshotRow> {
    Seq::new(rows.snapshots@.len(), |i: int| rows.snapshots@[i].row)
}

/// The snapshot added the file.
pub open spec fn adds(rows: ImageRows, c: int, snapshot: Id, file: Id) -> bool {
    &&& 0 <= c < rows.changes@.len()
    &&& rows.changes@[c].snapshot_id == snapshot
    &&& rows.changes@[c].file_id == file
    &&& rows.changes@[c].change_kind@ == "add"@
}

/// The row makes a file live on the ref.
pub open spec fn lives(rows: ImageRows, k: int, name: Seq<char>, snapshot: Id, file: Id) -> bool {
    &&& 0 <= k < rows.live@.len()
    &&& rows.live@[k].ref_name@ == name
    &&& rows.live@[k].added_snapshot_id == snapshot
    &&& rows.live@[k].file_id == file
}

pub open spec fn is_live(rows: ImageRows, name: Seq<char>, snapshot: Id, file: Id) -> bool {
    exists|k: int| #[trigger] lives(rows, k, name, snapshot, file)
}

pub open spec fn is_added(rows: ImageRows, snapshot: Id, file: Id) -> bool {
    exists|c: int| #[trigger] adds(rows, c, snapshot, file)
}

/// The files that are live on the ref are those that the snapshots of the chain added.
pub open spec fn lives_along(rows: ImageRows, name: Seq<char>, chain: Seq<Id>) -> bool {
    &&& forall|snapshot: Id, file: Id| #[trigger]
        is_live(rows, name, snapshot, file) ==> chain.contains(snapshot) && is_added(
            rows,
            snapshot,
            file,
        )
    &&& forall|snapshot: Id, file: Id| #[trigger]
        is_added(rows, snapshot, file) && chain.contains(snapshot) && (exists|s: int|
            0 <= s < rows.snapshots@.len() && (#[trigger] rows.snapshots@[s]).row.snapshot_id
                == snapshot) ==> is_live(rows, name, snapshot, file)
}

proof fn lemma_lives_along(rows: ImageRows, name: Seq<char>, chain: Seq<Id>)
    requires
        membership_agrees(rows, name, chain),
    ensures
        lives_along(rows, name, chain),
{
    assert forall|snapshot: Id, file: Id| #[trigger]
        is_live(rows, name, snapshot, file) implies chain.contains(snapshot) && is_added(
        rows,
        snapshot,
        file,
    ) by {
        let k = choose|k: int| #[trigger] lives(rows, k, name, snapshot, file);
        let row = rows.live@[k];
        let m = Membership {
            file_id: file,
            snapshot_id: snapshot,
            data_sequence: row.data_sequence_number,
            file_sequence: row.file_sequence_number,
        };
        assert(listed(rows, name, m));
        assert(belongs(rows, chain, m));
        let c = choose|c: int|
            0 <= c < rows.changes@.len() && (#[trigger] rows.changes@[c]).snapshot_id == snapshot
                && rows.changes@[c].file_id == file && rows.changes@[c].change_kind@ == "add"@;
        assert(adds(rows, c, snapshot, file));
    }
    assert forall|snapshot: Id, file: Id| #[trigger]
        is_added(rows, snapshot, file) && chain.contains(snapshot) && (exists|s: int|
            0 <= s < rows.snapshots@.len() && (#[trigger] rows.snapshots@[s]).row.snapshot_id
                == snapshot) implies is_live(rows, name, snapshot, file) by {
        let c = choose|c: int| #[trigger] adds(rows, c, snapshot, file);
        let s = choose|s: int|
            0 <= s < rows.snapshots@.len() && (#[trigger] rows.snapshots@[s]).row.snapshot_id
                == snapshot;
        let sequence = rows.snapshots@[s].row.sequence_number;
        let m = Membership {
            file_id: file,
            snapshot_id: snapshot,
            data_sequence: sequence,
            file_sequence: sequence,
        };
        assert(rows.changes@[c].snapshot_id == snapshot);
        assert(has_sequence(rows.snapshots@, snapshot, sequence));
        assert(belongs(rows, chain, m));
        assert(listed(rows, name, m));
        let k = choose|k: int|
            {
                &&& 0 <= k < rows.live@.len()
                &&& (#[trigger] rows.live@[k]).ref_name@ == name
                &&& rows.live@[k].file_id == m.file_id
                &&& rows.live@[k].added_snapshot_id == m.snapshot_id
                &&& rows.live@[k].data_sequence_number == m.data_sequence
                &&& rows.live@[k].file_sequence_number == m.file_sequence
            };
        assert(lives(rows, k, name, snapshot, file));
    }
}

/// A branch is sound: its snapshots lead back to a first one, and the files that are
/// live on it are theirs.
pub open spec fn branch_holds(rows: ImageRows, row: RefRecord) -> bool {
    exists|chain: Seq<Id>, places: Seq<int>| #[trigger]
        leads_back(order_of(rows), row.snapshot_id, chain, places, 0) && lives_along(
            rows,
            row.name@,
            chain,
        )
}

proof fn lemma_refs(rows: ImageRows, refs: Seq<RefRecord>, i: int)
    requires
        refs_check(rows, refs) is Ok,
        0 <= i < refs.len(),
    ensures
        ref_check(rows, refs[i]) is Ok,
    decreases refs.len(),
{
    if i > 0 {
        assert(refs.skip(1)[i - 1] == refs[i]);
        lemma_refs(rows, refs.skip(1), i - 1);
    }
}

/// Rows that were found to be sound are those of the head: its table, its version and
/// its commit. Every version has one commit, and the state before the last is the
/// head's previous one. Sequence numbers count the snapshots, and parents are older.
/// Each branch leads back to a first snapshot and has just the files of its snapshots,
/// a tag has none, and there is a branch `main`.
pub proof fn lemma_sound_image(
    rows: ImageRows,
    expected: ExpectedImage,
    r: Result<(), RuntimeError>,
)
    requires
        facts_complete(rows),
        call_ensures(validate, (&rows, &expected), r),
        r is Ok,
    ensures
        rows.integrity@ == "ok"@,
        rows.foreign_key_errors == 0,
        rows.application_id == 0x4f54_4d50,
        rows.user_version == 2,
        rows.page_size == 4096,
        rows.meta.protocol@ == "otmp"@,
        rows.meta.protocol_version@ == "0.0.2-alpha"@,
        rows.meta.table_id == expected.table_id,
        rows.meta.table_version == expected.table_version,
        rows.meta.semantic_state == expected.semantic_state,
        rows.meta.last_commit_id == expected.commit_id,
        rows.meta.last_commit_sha256 == expected.commit_hash,
        rows.commits@.len() == expected.table_version + 1,
        forall|version: int|
            0 <= version <= expected.table_version ==> #[trigger] has_commit(
                rows.commits@,
                version,
            ),
        forall|i: int, j: int|
            0 <= i < j < rows.commits@.len() ==> (#[trigger] rows.commits@[i]).table_version != (
            #[trigger] rows.commits@[j]).table_version,
        exists|i: int|
            0 <= i < rows.commits@.len() && is_heads(#[trigger] rows.commits@[i], expected),
        expected.table_version == 0 ==> expected.previous_semantic_state is None,
        expected.table_version > 0 ==> exists|i: int| #[trigger]
            is_at(rows.commits@, i, expected.table_version - 1)
                && expected.previous_semantic_state == Some(rows.commits@[i].semantic_state),
        rows.meta.last_sequence_number == rows.snapshots@.len(),
        forall|i: int|
            0 <= i < rows.snapshots@.len() ==> 1 <= (
            #[trigger] rows.snapshots@[i]).row.sequence_number <= rows.snapshots@.len() && 1
                <= rows.snapshots@[i].committed_table_version <= expected.table_version
                && rows.snapshots@[i].operation@ == "append"@,
        forall|i: int, j: int|
            0 <= i < j < rows.snapshots@.len() ==> (
            #[trigger] rows.snapshots@[i]).row.sequence_number != (
            #[trigger] rows.snapshots@[j]).row.sequence_number
                && rows.snapshots@[i].committed_table_version
                != rows.snapshots@[j].committed_table_version,
        forall|i: int|
            0 <= i < rows.refs@.len() && (#[trigger] rows.refs@[i]).ref_type@ == "branch"@
                ==> branch_holds(rows, rows.refs@[i]),
        forall|i: int, snapshot: Id, file: Id|
            0 <= i < rows.refs@.len() && (#[trigger] rows.refs@[i]).ref_type@ == "tag"@
                ==> !#[trigger] is_live(rows, rows.refs@[i].name@, snapshot, file),
        exists|i: int|
            0 <= i < rows.refs@.len() && (#[trigger] rows.refs@[i]).name@ == "main"@
                && rows.refs@[i].ref_type@ == "branch"@,
{
    let commits = rows.commits@;
    let last = lemma_last(commits, expected);
    assert(is_heads(commits[last], expected));
    assert forall|version: int|
        0 <= version <= expected.table_version implies #[trigger] has_commit(commits, version) by {
        lemma_contiguous_has_every_version(commits, expected.table_version, version);
        let i = choose|i: int|
            0 <= i < commits.len() && (#[trigger] commits[i]).table_version == version;
        assert(is_at(commits, i, version));
    }
    if expected.table_version > 0 {
        let i = lemma_state(commits, expected.table_version - 1);
        assert(has_commit(commits, expected.table_version - 1));
        assert(is_at(commits, i, expected.table_version - 1));
    }
    assert(order_of(rows) =~= snapshot_rows(rows.snapshots@));
    assert forall|i: int|
        0 <= i < rows.refs@.len() && (#[trigger] rows.refs@[i]).ref_type@
            == "branch"@ implies branch_holds(rows, rows.refs@[i]) by {
        let row = rows.refs@[i];
        lemma_refs(rows, rows.refs@, i);
        let found = lineage(
            Walk::History,
            order_of(rows),
            row.snapshot_id,
            Seq::empty(),
            u64::MAX as int,
        );
        let chain = found->Ok_0;
        lemma_walk_finds_the_lineage(Walk::History, order_of(rows), row.snapshot_id);
        assert(least_of(Walk::History) == 0);
        let places = choose|places: Seq<int>| #[trigger]
            leads_back(order_of(rows), row.snapshot_id, chain, places, 0);
        lemma_lives_along(rows, row.name@, chain);
        assert(leads_back(order_of(rows), row.snapshot_id, chain, places, 0));
    }
    assert forall|i: int, snapshot: Id, file: Id|
        0 <= i < rows.refs@.len() && (#[trigger] rows.refs@[i]).ref_type@
            == "tag"@ implies !#[trigger] is_live(rows, rows.refs@[i].name@, snapshot, file) by {
        let row = rows.refs@[i];
        reveal_strlit("tag");
        reveal_strlit("branch");
        assert("tag"@.len() != "branch"@.len());
        assert(row.ref_type@ != "branch"@);
        lemma_refs(rows, rows.refs@, i);
        let none: Seq<Id> = Seq::empty();
        assert(lineage(Walk::History, order_of(rows), None, none, u64::MAX as int) == Ok::<
            Seq<Id>,
            ErrorView,
        >(none));
        assert(ref_check(rows, row) is Ok);
        assert(membership_agrees(rows, row.name@, none));
        lemma_lives_along(rows, row.name@, none);
        if is_live(rows, row.name@, snapshot, file) {
            assert(none.contains(snapshot));
        }
    }
    let main = choose|i: int|
        0 <= i < rows.refs@.len() && crate::image::is_main(#[trigger] rows.refs@[i]);
    assert(rows.refs@[main].name@ == "main"@);
}

} // verus!

//! When listings are given: what can stand in the way of one, and how many files it
//! has.
use crate::catalog::{lineage, snapshot_of, RefRow, SnapshotRow, Walk};
use crate::error::RuntimeError;
use crate::hash::Id;
use crate::history::{
    added_by, ancestry_outcome, branch_files, file_of, files_along, is_live, live_on, record_of,
    rows_of, snapshot_files, unlistable, unlistable_at, unlistable_row, unreadable, uri_refused,
    LiveFile, TextCodec,
};
use crate::laws::lineages::{is_row_of, leads_back, least_of, lemma_walk_finds_the_lineage};
use crate::laws::selected_snapshots::{
    adds_along, describable, is_file_of, is_record_of, lemma_added_by, lemma_branches, lemma_file,
    lemma_record, makes_live, only_branch,
};
use crate::tables::{ChangeRow, FileRecord, LiveRow, SnapshotRecord};
use vstd::prelude::*;

verus! {

/// A file that nothing speaks against: its numbers can be, and its address is never
/// refused.
pub open spec fn presentable<C: TextCodec>(codec: C, file: FileRecord) -> bool {
    &&& file.file_size_bytes >= 0
    &&& file.record_count >= 0
    &&& forall|e: RuntimeError| !#[trigger] uri_refused(codec, file.uri, e)
}

/// The rows that make files live on a branch.
pub open spec fn live_rows(live: Seq<LiveRow>, files: Seq<FileRecord>, name: Seq<char>) -> Seq<
    LiveRow,
> {
    live.filter(
        |row: LiveRow|
            row.ref_name@ == name && exists|k: int| #[trigger] is_file_of(files, k, row.file_id),
    )
}

proof fn lemma_live_count(live: Seq<LiveRow>, files: Seq<FileRecord>, name: Seq<char>)
    ensures
        live_on(live, files, name).len() == live_rows(live, files, name).len(),
    decreases live.len(),
{
    reveal(Seq::filter);
    if live.len() > 0 {
        lemma_live_count(live.drop_last(), files, name);
        let row = live.last();
        let k = lemma_file(files, row.file_id);
        assert(is_live(row, files, name) <==> row.ref_name@ == name && exists|k: int| #[trigger]
            is_file_of(files, k, row.file_id)) by {
            if file_of(files, row.file_id) is Some {
                assert(is_file_of(files, k, row.file_id));
            }
        }
    }
}

/// A branch is listed where it is the only one of its name and nothing speaks against
/// the files that are live on it; it has as many files as rows that make one live.
pub proof fn lemma_branch_is_listed<C: TextCodec>(
    codec: C,
    refs: Vec<RefRow>,
    live: Vec<LiveRow>,
    files: Vec<FileRecord>,
    name: String,
    r: Result<Vec<LiveFile>, RuntimeError>,
)
    requires
        call_ensures(branch_files::<C>, (&codec, &refs, &live, &files, &name), r),
    ensures
        (exists|i: int| #[trigger] only_branch(refs@, i, name@)) && (forall|i: int, k: int|
            #[trigger]
            makes_live(live@, files@, name@, i, k) ==> presentable(codec, files@[k])
                && live@[i].file_sequence_number >= 0) ==> r is Ok,
        r matches Ok(listed) ==> listed@.len() == live_rows(live@, files@, name@).len(),
{
    lemma_branches(refs@, name@);
    match r {
        Ok(listed) => {
            let shown = crate::history::files_view(listed@);
            let all = live_on(live@, files@, name@);
            shown.to_multiset_ensures();
            all.to_multiset_ensures();
            assert(shown.len() == all.len());
            assert(shown.len() == listed@.len());
            lemma_live_count(live@, files@, name@);
        },
        Err(e) => {
            if exists|i: int| #[trigger] only_branch(refs@, i, name@) {
                let i = choose|i: int|
                    0 <= i < live@.len() && #[trigger] unlistable_row(
                        codec,
                        live@,
                        files@,
                        name@,
                        i,
                        e,
                    );
                let k = lemma_file(files@, live@[i].file_id);
                assert(is_live(live@[i], files@, name@));
                assert(makes_live(live@, files@, name@, i, k));
                if presentable(codec, files@[k]) && live@[i].file_sequence_number >= 0 {
                    assert(!uri_refused(codec, files@[k].uri, e));
                }
            }
        },
    }
}

proof fn lemma_row_of_record(records: Seq<SnapshotRecord>, id: Id)
    ensures
        match record_of(records, id) {
            Some(record) => snapshot_of(rows_of(records), id) == Some(record.row),
            None => snapshot_of(rows_of(records), id) is None,
        },
    decreases records.len(),
{
    if records.len() > 0 {
        lemma_row_of_record(records.skip(1), id);
        assert(rows_of(records)[0] == records[0].row);
        assert(rows_of(records).skip(1) =~= rows_of(records.skip(1)));
    }
}

proof fn lemma_keeps(rows: Seq<SnapshotRow>, tip: Option<Id>, met: Seq<Id>, last: int, x: Id)
    requires
        met.contains(x),
        lineage(Walk::History, rows, tip, met, last) is Ok,
    ensures
        lineage(Walk::History, rows, tip, met, last)->Ok_0.contains(x),
    decreases last,
{
    if let Some(id) = tip {
        let row = snapshot_of(rows, id)->0;
        let k = choose|k: int| 0 <= k < met.len() && met[k] == x;
        assert(met.push(id)[k] == x);
        lemma_keeps(rows, row.parent_snapshot_id, met.push(id), row.sequence_number as int, x);
    }
}

proof fn lemma_undescribed<C: TextCodec>(
    codec: C,
    records: Seq<SnapshotRecord>,
    tip: Option<Id>,
    met: Seq<Id>,
    last: int,
    e: RuntimeError,
) -> (id: Id)
    requires
        lineage(Walk::History, rows_of(records), tip, met, last) is Ok,
        ancestry_outcome(codec, records, tip, met, last, Err(e)),
    ensures
        lineage(Walk::History, rows_of(records), tip, met, last)->Ok_0.contains(id),
        record_of(records, id) is Some,
        unreadable(codec, record_of(records, id)->0, e),
    decreases last,
{
    let id = tip->0;
    lemma_row_of_record(records, id);
    let record = record_of(records, id)->0;
    if unreadable(codec, record, e) {
        assert(met.push(id)[met.len() as int] == id);
        lemma_keeps(
            rows_of(records),
            record.row.parent_snapshot_id,
            met.push(id),
            record.row.sequence_number as int,
            id,
        );
        id
    } else {
        lemma_undescribed(
            codec,
            records,
            record.row.parent_snapshot_id,
            met.push(id),
            record.row.sequence_number as int,
            e,
        )
    }
}

proof fn lemma_along(chain: Seq<Id>, changes: Seq<ChangeRow>, files: Seq<FileRecord>, i: int) -> (j:
    int)
    requires
        0 <= i < files_along(chain, changes, files).len(),
    ensures
        0 <= j < chain.len(),
        added_by(changes, files, chain[j]).contains(files_along(chain, changes, files)[i]),
    decreases chain.len(),
{
    let front = chain.drop_last();
    let before = files_along(front, changes, files);
    let more = added_by(changes, files, chain.last());
    if i < before.len() {
        lemma_along(front, changes, files, i)
    } else {
        assert(more[i - before.len()] == files_along(chain, changes, files)[i]);
        chain.len() - 1
    }
}

/// The files of a snapshot are listed where the snapshots behind it lead back to a
/// first one, each of them can be described, and nothing speaks against the files that
/// they added.
pub proof fn lemma_snapshot_is_listed<C: TextCodec>(
    codec: C,
    records: Vec<SnapshotRecord>,
    changes: Vec<ChangeRow>,
    files: Vec<FileRecord>,
    snapshot: Option<Id>,
    chain: Seq<Id>,
    places: Seq<int>,
    r: Result<Vec<LiveFile>, RuntimeError>,
)
    requires
        call_ensures(snapshot_files::<C>, (&codec, &records, &changes, &files, snapshot), r),
        leads_back(
            Seq::new(records@.len(), |i: int| records@[i].row),
            snapshot,
            chain,
            places,
            0,
        ),
        forall|k: int| 0 <= k < chain.len() ==> describable(codec, records@[#[trigger] places[k]]),
        forall|c: int, s: int, k: int| #[trigger]
            adds_along(chain, records@, changes@, files@, c, s, k) ==> presentable(
                codec,
                files@[k],
            ),
    ensures
        r is Ok,
{
    let rows = rows_of(records@);
    assert(rows =~= Seq::new(records@.len(), |i: int| records@[i].row));
    assert(least_of(Walk::History) == 0);
    lemma_walk_finds_the_lineage(Walk::History, rows, snapshot);
    assert forall|k: int| 0 <= k < chain.len() implies is_record_of(
        records@,
        #[trigger] places[k],
        chain[k],
    ) by {
        assert(is_row_of(rows, places[k], chain[k]));
        assert(rows[places[k]] == records@[places[k]].row);
        assert forall|j: int| 0 <= j < places[k] implies (
        #[trigger] records@[j]).row.snapshot_id != chain[k] by {
            assert(rows[j].snapshot_id != chain[k]);
        }
    }
    if let Err(e) = r {
        if ancestry_outcome(codec, records@, snapshot, Seq::empty(), u64::MAX as int, Err(e)) {
            let id = lemma_undescribed(
                codec,
                records@,
                snapshot,
                Seq::empty(),
                u64::MAX as int,
                e,
            );
            let k = choose|k: int| 0 <= k < chain.len() && chain[k] == id;
            let i = lemma_record(records@, id);
            assert(is_record_of(records@, places[k], id));
            if i < places[k] {
                assert(records@[i].row.snapshot_id != id);
            } else if places[k] < i {
                assert(records@[places[k]].row.snapshot_id != id);
            }
            assert(describable(codec, records@[places[k]]));
        } else {
            let all = files_along(chain, changes@, files@);
            let i = choose|i: int|
                0 <= i < all.len() && #[trigger] unlistable_at(codec, all, i, e);
            let j = lemma_along(chain, changes@, files@, i);
            lemma_added_by(changes@, files@, chain[j], all[i]);
            let (c, k) = choose|c: int, k: int|
                0 <= c < changes@.len() && changes@[c].change_kind@ == "add"@
                    && changes@[c].snapshot_id == chain[j] && #[trigger] is_file_of(
                    files@,
                    k,
                    (#[trigger] changes@[c]).file_id,
                ) && files@[k] == all[i];
            assert(adds_along(chain, records@, changes@, files@, c, places[j], k));
            assert(unlistable(codec, all[i], e));
            assert(!uri_refused(codec, files@[k].uri, e));
        }
    }
}

} // verus!

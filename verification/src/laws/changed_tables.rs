//! What each change of a transaction makes of the rows of a table.
use crate::catalog::RefType;
use crate::changed_rows::{
    apply_changes, change_made, changes_made, live_row_of, live_without, refs_without,
    snapshot_files, with_sequences,
};
use crate::error::RuntimeError;
use crate::hash::Id;
use crate::tables::{ChangeRow, ImageRows, LiveRow, MetaRow, RefRecord, SnapshotRecord};
use crate::transactions::{changes_view, OperationRequest, RowChange};
use vstd::prelude::*;

verus! {

/// The rows but for the refs, the live files, the schemas and the description of the
/// table.
pub open spec fn rest_stays(a: ImageRows, b: ImageRows) -> bool {
    b == (ImageRows { refs: b.refs, live: b.live, schemas: b.schemas, meta: b.meta, ..a })
}

/// The refs of other names, in their order.
pub open spec fn other_refs(refs: Seq<RefRecord>, name: Seq<char>) -> Seq<RefRecord> {
    refs.filter(|row: RefRecord| row.name@ != name)
}

/// The live files of other branches, in their order.
pub open spec fn other_live(live: Seq<LiveRow>, name: Seq<char>) -> Seq<LiveRow> {
    live.filter(|row: LiveRow| row.ref_name@ != name)
}

proof fn lemma_other_refs(refs: Seq<RefRecord>, name: Seq<char>)
    ensures
        refs_without(refs, name) == other_refs(refs, name),
    decreases refs.len(),
{
    reveal(Seq::filter);
    if refs.len() > 0 {
        lemma_other_refs(refs.drop_last(), name);
    }
}

proof fn lemma_other_live(live: Seq<LiveRow>, name: Seq<char>)
    ensures
        live_without(live, name) == other_live(live, name),
    decreases live.len(),
{
    reveal(Seq::filter);
    if live.len() > 0 {
        lemma_other_live(live.drop_last(), name);
    }
}

/// The snapshot added the file, with the sequence number that it is stored with.
pub open spec fn added_by(
    rows: ImageRows,
    change: int,
    snapshot: int,
    id: Id,
    file: Id,
    sequence: i64,
) -> bool {
    &&& 0 <= change < rows.changes@.len()
    &&& 0 <= snapshot < rows.snapshots@.len()
    &&& rows.changes@[change].snapshot_id == id
    &&& rows.changes@[change].change_kind@ == "add"@
    &&& rows.changes@[change].file_id == file
    &&& rows.snapshots@[snapshot].row.snapshot_id == id
    &&& rows.snapshots@[snapshot].row.sequence_number == sequence
}

pub open spec fn is_added(rows: ImageRows, id: Id, file: Id, sequence: i64) -> bool {
    exists|change: int, snapshot: int| #[trigger]
        added_by(rows, change, snapshot, id, file, sequence)
}

proof fn lemma_sequences(snapshots: Seq<SnapshotRecord>, id: Id, file: Id, x: (Id, i64))
    ensures
        with_sequences(snapshots, id, file).contains(x) <==> x.0 == file && exists|s: int|
            0 <= s < snapshots.len() && (#[trigger] snapshots[s]).row.snapshot_id == id
                && snapshots[s].row.sequence_number == x.1,
    decreases snapshots.len(),
{
    if snapshots.len() > 0 {
        let front = snapshots.drop_last();
        let n = snapshots.len() - 1;
        lemma_sequences(front, id, file, x);
        let before = with_sequences(front, id, file);
        let all = with_sequences(snapshots, id, file);
        if all.contains(x) {
            let k = choose|k: int| 0 <= k < all.len() && all[k] == x;
            if k < before.len() {
                assert(before[k] == x);
                let s = choose|s: int|
                    0 <= s < front.len() && (#[trigger] front[s]).row.snapshot_id == id
                        && front[s].row.sequence_number == x.1;
                assert(snapshots[s] == front[s]);
            } else {
                assert(snapshots[n].row.snapshot_id == id);
            }
        }
        if x.0 == file && exists|s: int|
            0 <= s < snapshots.len() && (#[trigger] snapshots[s]).row.snapshot_id == id
                && snapshots[s].row.sequence_number == x.1 {
            let s = choose|s: int|
                0 <= s < snapshots.len() && (#[trigger] snapshots[s]).row.snapshot_id == id
                    && snapshots[s].row.sequence_number == x.1;
            if s < n {
                assert(front[s] == snapshots[s]);
                let k = choose|k: int| 0 <= k < before.len() && before[k] == x;
                assert(all[k] == x);
            } else {
                assert(all[before.len() as int] == x);
            }
        }
    }
}

proof fn lemma_files(
    changes: Seq<ChangeRow>,
    snapshots: Seq<SnapshotRecord>,
    id: Id,
    x: (Id, i64),
)
    ensures
        snapshot_files(changes, snapshots, id).contains(x) <==> exists|c: int, s: int|
            {
                &&& 0 <= c < changes.len()
                &&& 0 <= s < snapshots.len()
                &&& (#[trigger] changes[c]).snapshot_id == id
                &&& changes[c].change_kind@ == "add"@
                &&& changes[c].file_id == x.0
                &&& (#[trigger] snapshots[s]).row.snapshot_id == id
                &&& snapshots[s].row.sequence_number == x.1
            },
    decreases changes.len(),
{
    let all = snapshot_files(changes, snapshots, id);
    if changes.len() > 0 {
        let front = changes.drop_last();
        let n = changes.len() - 1;
        let last = changes.last();
        let before = snapshot_files(front, snapshots, id);
        let more = with_sequences(snapshots, id, last.file_id);
        lemma_files(front, snapshots, id, x);
        lemma_sequences(snapshots, id, last.file_id, x);
        let adds = last.snapshot_id == id && last.change_kind@ == "add"@;
        if all.contains(x) {
            let k = choose|k: int| 0 <= k < all.len() && all[k] == x;
            if k < before.len() {
                assert(before[k] == x);
                let (c, s) = choose|c: int, s: int|
                    {
                        &&& 0 <= c < front.len()
                        &&& 0 <= s < snapshots.len()
                        &&& (#[trigger] front[c]).snapshot_id == id
                        &&& front[c].change_kind@ == "add"@
                        &&& front[c].file_id == x.0
                        &&& (#[trigger] snapshots[s]).row.snapshot_id == id
                        &&& snapshots[s].row.sequence_number == x.1
                    };
                assert(changes[c] == front[c]);
                assert(snapshots[s].row.snapshot_id == id);
            } else {
                assert(more[k - before.len()] == x);
                let s = choose|s: int|
                    0 <= s < snapshots.len() && (#[trigger] snapshots[s]).row.snapshot_id == id
                        && snapshots[s].row.sequence_number == x.1;
                assert(changes[n].snapshot_id == id);
                assert(snapshots[s].row.snapshot_id == id);
            }
        }
        if exists|c: int, s: int|
            {
                &&& 0 <= c < changes.len()
                &&& 0 <= s < snapshots.len()
                &&& (#[trigger] changes[c]).snapshot_id == id
                &&& changes[c].change_kind@ == "add"@
                &&& changes[c].file_id == x.0
                &&& (#[trigger] snapshots[s]).row.snapshot_id == id
                &&& snapshots[s].row.sequence_number == x.1
            } {
            let (c, s) = choose|c: int, s: int|
                {
                    &&& 0 <= c < changes.len()
                    &&& 0 <= s < snapshots.len()
                    &&& (#[trigger] changes[c]).snapshot_id == id
                    &&& changes[c].change_kind@ == "add"@
                    &&& changes[c].file_id == x.0
                    &&& (#[trigger] snapshots[s]).row.snapshot_id == id
                    &&& snapshots[s].row.sequence_number == x.1
                };
            if c < n {
                assert(front[c] == changes[c]);
                assert(snapshots[s].row.snapshot_id == id);
                let k = choose|k: int| 0 <= k < before.len() && before[k] == x;
                assert(all[k] == x);
            } else {
                assert(snapshots[s].row.snapshot_id == id);
                let k = choose|k: int| 0 <= k < more.len() && more[k] == x;
                assert(all[before.len() + k] == x);
            }
        }
    }
}

/// The row makes a file live on a branch that a snapshot added, with the snapshot's
/// sequence number.
pub open spec fn makes_live(row: LiveRow, rows: ImageRows, name: Seq<char>, id: Id) -> bool {
    &&& row.ref_name@ == name
    &&& row.added_snapshot_id == id
    &&& row.data_sequence_number == row.file_sequence_number
    &&& is_added(rows, id, row.file_id, row.file_sequence_number)
}

/// A live row of the file of a snapshot is there.
pub open spec fn has_live(
    live: Seq<LiveRow>,
    name: Seq<char>,
    id: Id,
    file: Id,
    sequence: i64,
) -> bool {
    exists|k: int|
        {
            &&& 0 <= k < live.len()
            &&& (#[trigger] live[k]).ref_name@ == name
            &&& live[k].added_snapshot_id == id
            &&& live[k].file_id == file
            &&& live[k].file_sequence_number == sequence
            &&& live[k].data_sequence_number == sequence
        }
}

/// What one change makes of the rows. A ref is added with its kind, its snapshot and
/// the version; the ref that is moved gets the snapshot and the version, and the
/// others stay; one that is removed is gone; a branch that is cleared has no live
/// files, and the others keep theirs; a branch to which a snapshot's files are added
/// gets just those; the schema that is chosen is the current one. Properties are kept
/// elsewhere.
pub proof fn lemma_change_is_made(
    rows: ImageRows,
    operations: Vec<OperationRequest>,
    changes: Vec<RowChange>,
    end: ImageRows,
)
    requires
        changes@.len() == 1,
        call_ensures(
            apply_changes,
            (rows, &operations, &changes),
            Ok::<ImageRows, RuntimeError>(end),
        ),
    ensures
        rest_stays(rows, end),
        !(changes@[0] is InsertSchema) ==> end.schemas == rows.schemas,
        !(changes@[0] is SetCurrentSchema) ==> end.meta == rows.meta,
        match changes@[0] {
            RowChange::PutProperty { .. } => end == rows,
            RowChange::RemoveProperty { .. } => end == rows,
            RowChange::InsertRef { name, ref_type, snapshot_id, version } => {
                &&& end.live == rows.live
                &&& end.refs@.len() == rows.refs@.len() + 1
                &&& forall|i: int|
                    0 <= i < rows.refs@.len() ==> #[trigger] end.refs@[i] == rows.refs@[i]
                &&& end.refs@.last().name@ == name@
                &&& end.refs@.last().ref_type@ == (match ref_type {
                    RefType::Branch => "branch"@,
                    RefType::Tag => "tag"@,
                })
                &&& end.refs@.last().snapshot_id == snapshot_id
                &&& end.refs@.last().created_version == version
                &&& end.refs@.last().updated_version == version
            },
            RowChange::MoveRef { name, snapshot_id, version } => {
                &&& end.live == rows.live
                &&& end.refs@.len() == rows.refs@.len()
                &&& forall|i: int|
                    0 <= i < rows.refs@.len() && rows.refs@[i].name@ != name@
                        ==> #[trigger] end.refs@[i] == rows.refs@[i]
                &&& forall|i: int|
                    0 <= i < rows.refs@.len() && rows.refs@[i].name@ == name@ ==> {
                        let moved = #[trigger] end.refs@[i];
                        &&& moved.name@ == name@
                        &&& moved.ref_type@ == rows.refs@[i].ref_type@
                        &&& moved.snapshot_id == Some(snapshot_id)
                        &&& moved.created_version == rows.refs@[i].created_version
                        &&& moved.updated_version == version
                    }
            },
            RowChange::RemoveRef { name } => {
                &&& end.live == rows.live
                &&& end.refs@ == other_refs(rows.refs@, name@)
            },
            RowChange::ClearBranch { name } => {
                &&& end.refs == rows.refs
                &&& end.live@ == other_live(rows.live@, name@)
            },
            RowChange::AddBranchFiles { name, snapshot_id } => {
                &&& end.refs == rows.refs
                &&& end.live@.len() >= rows.live@.len()
                &&& forall|k: int|
                    0 <= k < rows.live@.len() ==> #[trigger] end.live@[k] == rows.live@[k]
                &&& forall|k: int|
                    rows.live@.len() <= k < end.live@.len() ==> makes_live(
                        #[trigger] end.live@[k],
                        rows,
                        name@,
                        snapshot_id,
                    )
                &&& forall|file: Id, sequence: i64| #[trigger]
                    is_added(rows, snapshot_id, file, sequence) ==> has_live(
                        end.live@,
                        name@,
                        snapshot_id,
                        file,
                        sequence,
                    )
            },
            RowChange::InsertSchema { .. } => {
                &&& end.refs == rows.refs
                &&& end.live == rows.live
                &&& end.schemas@.len() == rows.schemas@.len() + 1
                &&& forall|i: int|
                    0 <= i < rows.schemas@.len() ==> #[trigger] end.schemas@[i] == rows.schemas@[i]
            },
            RowChange::SetCurrentSchema { schema_id } => {
                &&& end.refs == rows.refs
                &&& end.live == rows.live
                &&& end.meta == (MetaRow { current_schema_id: schema_id as i64, ..rows.meta })
            },
        },
{
    let all = changes_view(changes@);
    reveal_with_fuel(changes_made, 2);
    assert(all.drop_last() =~= Seq::empty());
    assert(change_made(rows, end, operations@, changes@[0]@));
    match changes@[0] {
        RowChange::InsertRef { .. } => {
            assert forall|i: int| 0 <= i < rows.refs@.len() implies #[trigger] end.refs@[i]
                == rows.refs@[i] by {
                assert(end.refs@.drop_last()[i] == end.refs@[i]);
            }
        },
        RowChange::MoveRef { name, .. } => {},
        RowChange::RemoveRef { name } => {
            lemma_other_refs(rows.refs@, name@);
        },
        RowChange::ClearBranch { name } => {
            lemma_other_live(rows.live@, name@);
        },
        RowChange::AddBranchFiles { name, snapshot_id } => {
            let files = snapshot_files(rows.changes@, rows.snapshots@, snapshot_id);
            let n = rows.live@.len();
            assert forall|k: int| 0 <= k < n implies #[trigger] end.live@[k] == rows.live@[k] by {
                assert(end.live@.take(n as int)[k] == end.live@[k]);
            }
            assert forall|k: int| n <= k < end.live@.len() implies makes_live(
                #[trigger] end.live@[k],
                rows,
                name@,
                snapshot_id,
            ) by {
                let x = files[k - n];
                assert(live_row_of(end.live@[n + (k - n)], name@, snapshot_id, x));
                assert(files.contains(x));
                lemma_files(rows.changes@, rows.snapshots@, snapshot_id, x);
                let (c, s) = choose|c: int, s: int|
                    {
                        &&& 0 <= c < rows.changes@.len()
                        &&& 0 <= s < rows.snapshots@.len()
                        &&& (#[trigger] rows.changes@[c]).snapshot_id == snapshot_id
                        &&& rows.changes@[c].change_kind@ == "add"@
                        &&& rows.changes@[c].file_id == x.0
                        &&& (#[trigger] rows.snapshots@[s]).row.snapshot_id == snapshot_id
                        &&& rows.snapshots@[s].row.sequence_number == x.1
                    };
                assert(added_by(rows, c, s, snapshot_id, x.0, x.1));
            }
            assert forall|file: Id, sequence: i64| #[trigger]
                is_added(rows, snapshot_id, file, sequence) implies has_live(
                end.live@,
                name@,
                snapshot_id,
                file,
                sequence,
            ) by {
                let (c, s) = choose|c: int, s: int| #[trigger]
                    added_by(rows, c, s, snapshot_id, file, sequence);
                let x = (file, sequence);
                lemma_files(rows.changes@, rows.snapshots@, snapshot_id, x);
                assert(rows.changes@[c].snapshot_id == snapshot_id
                    && rows.snapshots@[s].row.snapshot_id == snapshot_id);
                let k = choose|k: int| 0 <= k < files.len() && files[k] == x;
                assert(live_row_of(end.live@[n + k], name@, snapshot_id, files[k]));
            }
        },
        RowChange::InsertSchema { .. } => {
            assert forall|i: int| 0 <= i < rows.schemas@.len() implies #[trigger] end.schemas@[i]
                == rows.schemas@[i] by {
                assert(end.schemas@.drop_last()[i] == end.schemas@[i]);
            }
        },
        _ => {},
    }
}

/// Changes are made one after the other: the rows after all of them are the rows after
/// the last, made to the rows after those before it.
pub proof fn lemma_changes_follow_each_other(
    rows: ImageRows,
    operations: Vec<OperationRequest>,
    changes: Vec<RowChange>,
    end: ImageRows,
)
    requires
        changes@.len() > 0,
        call_ensures(
            apply_changes,
            (rows, &operations, &changes),
            Ok::<ImageRows, RuntimeError>(end),
        ),
    ensures
        exists|mid: ImageRows|
            {
                &&& #[trigger] changes_made(
                    rows,
                    mid,
                    operations@,
                    changes_view(changes@.drop_last()),
                )
                &&& changes_made(mid, end, operations@, changes_view(seq![changes@.last()]))
            },
{
    let all = changes_view(changes@);
    let mid = choose|mid: ImageRows|
        changes_made(rows, mid, operations@, all.drop_last()) && #[trigger] change_made(
            mid,
            end,
            operations@,
            all.last(),
        );
    assert(all.drop_last() =~= changes_view(changes@.drop_last()));
    reveal_with_fuel(changes_made, 2);
    let one = changes_view(seq![changes@.last()]);
    assert(one.drop_last() =~= Seq::empty());
    assert(one.last() == all.last());
    assert(changes_made(rows, mid, operations@, changes_view(changes@.drop_last())));
    assert(changes_made(mid, mid, operations@, one.drop_last()));
    assert(change_made(mid, end, operations@, one.last()));
}

} // verus!

//! What the changes of a transaction make of the rows of an image.
use crate::catalog::{Catalog, RefType};
use crate::error::RuntimeError;
use crate::genesis::{insert_schema, numbered, ordinal_error, schema_stored};
use crate::hash::Id;
use crate::schema::fields_view;
use crate::tables::{ChangeRow, ImageRows, LiveRow, MetaRow, RefRecord, SnapshotRecord};
use crate::text::reads;
use crate::transactions::{changes_view, planned, ChangeView, OperationRequest, RowChange};
use vstd::prelude::*;

verus! {

/// A new ref.
pub open spec fn new_ref(
    row: RefRecord,
    name: Seq<char>,
    kind: RefType,
    snapshot: Option<Id>,
    version: i64,
) -> bool {
    &&& row.name@ == name
    &&& row.ref_type@ == kind.spec_text()
    &&& row.snapshot_id == snapshot
    &&& row.created_version == version
    &&& row.updated_version == version
}

/// A ref after the move of the one by that name.
pub open spec fn replaced_ref(
    after: RefRecord,
    before: RefRecord,
    name: Seq<char>,
    snapshot: Id,
    version: i64,
) -> bool {
    if before.name@ == name {
        &&& after.name@ == before.name@
        &&& after.ref_type@ == before.ref_type@
        &&& after.snapshot_id == Some(snapshot)
        &&& after.created_version == before.created_version
        &&& after.updated_version == version
    } else {
        after == before
    }
}

/// The refs but for the one by that name.
pub open spec fn refs_without(refs: Seq<RefRecord>, name: Seq<char>) -> Seq<RefRecord>
    decreases refs.len(),
{
    if refs.len() == 0 {
        Seq::empty()
    } else {
        let front = refs_without(refs.drop_last(), name);
        if refs.last().name@ == name {
            front
        } else {
            front.push(refs.last())
        }
    }
}

/// The live files but for those of one ref.
pub open spec fn live_without(live: Seq<LiveRow>, name: Seq<char>) -> Seq<LiveRow>
    decreases live.len(),
{
    if live.len() == 0 {
        Seq::empty()
    } else {
        let front = live_without(live.drop_last(), name);
        if live.last().ref_name@ == name {
            front
        } else {
            front.push(live.last())
        }
    }
}

/// A file with every sequence number that a snapshot is stored with.
pub open spec fn with_sequences(snapshots: Seq<SnapshotRecord>, id: Id, file: Id) -> Seq<(Id, i64)>
    decreases snapshots.len(),
{
    if snapshots.len() == 0 {
        Seq::empty()
    } else {
        let front = with_sequences(snapshots.drop_last(), id, file);
        if snapshots.last().row.snapshot_id == id {
            front.push((file, snapshots.last().row.sequence_number))
        } else {
            front
        }
    }
}

/// The files that a snapshot added, each with the snapshot's sequence number.
pub open spec fn snapshot_files(
    changes: Seq<ChangeRow>,
    snapshots: Seq<SnapshotRecord>,
    id: Id,
) -> Seq<(Id, i64)>
    decreases changes.len(),
{
    if changes.len() == 0 {
        Seq::empty()
    } else {
        let front = snapshot_files(changes.drop_last(), snapshots, id);
        let change = changes.last();
        if change.snapshot_id == id && change.change_kind@ == "add"@ {
            front + with_sequences(snapshots, id, change.file_id)
        } else {
            front
        }
    }
}

pub open spec fn live_row_of(row: LiveRow, name: Seq<char>, id: Id, file: (Id, i64)) -> bool {
    &&& row.ref_name@ == name
    &&& row.file_id == file.0
    &&& row.added_snapshot_id == id
    &&& row.data_sequence_number == file.1
    &&& row.file_sequence_number == file.1
}

/// The live files with those of a snapshot behind them.
pub open spec fn live_grown(
    after: Seq<LiveRow>,
    before: Seq<LiveRow>,
    name: Seq<char>,
    id: Id,
    files: Seq<(Id, i64)>,
) -> bool {
    &&& after.len() == before.len() + files.len()
    &&& after.take(before.len() as int) == before
    &&& forall|k: int|
        0 <= k < files.len() ==> live_row_of(
            #[trigger] after[before.len() + k],
            name,
            id,
            files[k],
        )
}

/// Whether the operations add the schema that a change names.
pub open spec fn names_schema(operations: Seq<OperationRequest>, change: ChangeView) -> bool {
    change matches ChangeView::InsertSchema(at, ..) ==> 0 <= at < operations.len()
        && operations[at] is AddSchema
}

/// The rows after one change. Properties are not among the rows of an image.
pub open spec fn change_made(
    before: ImageRows,
    after: ImageRows,
    operations: Seq<OperationRequest>,
    change: ChangeView,
) -> bool {
    match change {
        ChangeView::PutProperty(..) => after == before,
        ChangeView::RemoveProperty(_) => after == before,
        ChangeView::InsertRef(name, kind, snapshot, version) => {
            &&& after == (ImageRows { refs: after.refs, ..before })
            &&& after.refs@.len() == before.refs@.len() + 1
            &&& after.refs@.drop_last() == before.refs@
            &&& new_ref(after.refs@.last(), name, kind, snapshot, version)
        },
        ChangeView::MoveRef(name, snapshot, version) => {
            &&& after == (ImageRows { refs: after.refs, ..before })
            &&& after.refs@.len() == before.refs@.len()
            &&& forall|i: int|
                0 <= i < before.refs@.len() ==> replaced_ref(
                    #[trigger] after.refs@[i],
                    before.refs@[i],
                    name,
                    snapshot,
                    version,
                )
        },
        ChangeView::RemoveRef(name) => {
            &&& after == (ImageRows { refs: after.refs, ..before })
            &&& after.refs@ == refs_without(before.refs@, name)
        },
        ChangeView::ClearBranch(name) => {
            &&& after == (ImageRows { live: after.live, ..before })
            &&& after.live@ == live_without(before.live@, name)
        },
        ChangeView::AddBranchFiles(name, id) => {
            &&& after == (ImageRows { live: after.live, ..before })
            &&& live_grown(
                after.live@,
                before.live@,
                name,
                id,
                snapshot_files(before.changes@, before.snapshots@, id),
            )
        },
        ChangeView::InsertSchema(at, _, version) => {
            &&& after == (ImageRows { schemas: after.schemas, ..before })
            &&& after.schemas@.len() == before.schemas@.len() + 1
            &&& after.schemas@.drop_last() == before.schemas@
            &&& operations[at] matches OperationRequest::AddSchema { schema, .. } && schema_stored(
                after.schemas@.last(),
                schema,
                version,
            )
        },
        ChangeView::SetCurrentSchema(id) => {
            &&& after == (ImageRows { meta: after.meta, ..before })
            &&& after.meta == (MetaRow { current_schema_id: id as i64, ..before.meta })
        },
    }
}

/// The rows after a list of changes.
pub open spec fn changes_made(
    before: ImageRows,
    after: ImageRows,
    operations: Seq<OperationRequest>,
    changes: Seq<ChangeView>,
) -> bool
    decreases changes.len(),
{
    if changes.len() == 0 {
        after == before
    } else {
        exists|mid: ImageRows|
            changes_made(before, mid, operations, changes.drop_last()) && #[trigger] change_made(
                mid,
                after,
                operations,
                changes.last(),
            )
    }
}

proof fn lemma_one_more(
    before: ImageRows,
    mid: ImageRows,
    after: ImageRows,
    operations: Seq<OperationRequest>,
    changes: Seq<ChangeView>,
    change: ChangeView,
)
    requires
        changes_made(before, mid, operations, changes),
        change_made(mid, after, operations, change),
    ensures
        changes_made(before, after, operations, changes.push(change)),
{
    assert(changes.push(change).drop_last() =~= changes);
    assert(change_made(mid, after, operations, changes.push(change).last()));
}

/// Changes made one list after the other.
pub proof fn lemma_changes_split(
    before: ImageRows,
    after: ImageRows,
    operations: Seq<OperationRequest>,
    a: Seq<ChangeView>,
    b: Seq<ChangeView>,
) -> (mid: ImageRows)
    requires
        changes_made(before, after, operations, a + b),
    ensures
        changes_made(before, mid, operations, a),
        changes_made(mid, after, operations, b),
    decreases b.len(),
{
    if b.len() == 0 {
        assert(a + b =~= a);
        after
    } else {
        let all = a + b;
        assert(all.drop_last() =~= a + b.drop_last());
        let last = choose|mid: ImageRows|
            changes_made(before, mid, operations, all.drop_last()) && #[trigger] change_made(
                mid,
                after,
                operations,
                all.last(),
            );
        let mid = lemma_changes_split(before, last, operations, a, b.drop_last());
        lemma_one_more(mid, last, after, operations, b.drop_last(), b.last());
        assert(b.drop_last().push(b.last()) =~= b);
        mid
    }
}

/// Whether a change adds a schema with more fields than can be numbered.
pub open spec fn unnumbered(operations: Seq<OperationRequest>, change: ChangeView) -> bool {
    change matches ChangeView::InsertSchema(at, ..) && (operations[at]
        matches OperationRequest::AddSchema { schema, .. } && !numbered(fields_view(schema.fields@)))
}

fn move_ref(refs: &mut Vec<RefRecord>, name: &String, snapshot: Id, version: i64)
    ensures
        final(refs)@.len() == old(refs)@.len(),
        forall|i: int|
            0 <= i < old(refs)@.len() ==> replaced_ref(
                #[trigger] final(refs)@[i],
                old(refs)@[i],
                name@,
                snapshot,
                version,
            ),
{
    let ghost start = refs@;
    let mut j: usize = 0;
    while j < refs.len()
        invariant
            j <= refs@.len(),
            refs@.len() == start.len(),
            forall|i: int|
                0 <= i < j ==> replaced_ref(
                    #[trigger] refs@[i],
                    start[i],
                    name@,
                    snapshot,
                    version,
                ),
            forall|i: int| j <= i < start.len() ==> #[trigger] refs@[i] == start[i],
        decreases refs@.len() - j,
    {
        if refs[j].name == *name {
            let ghost before = refs@;
            let moved = RefRecord {
                name: refs[j].name.clone(),
                ref_type: refs[j].ref_type.clone(),
                snapshot_id: Some(snapshot),
                created_version: refs[j].created_version,
                updated_version: version,
            };
            refs.set(j, moved);
            assert(refs@ =~= before.update(j as int, moved));
        }
        j = j + 1;
    }
}

fn remove_ref(refs: Vec<RefRecord>, name: &String) -> (kept: Vec<RefRecord>)
    ensures
        kept@ == refs_without(refs@, name@),
{
    let ghost all = refs@;
    let mut rest = refs;
    let mut kept: Vec<RefRecord> = Vec::new();
    let ghost mut n: int = 0;
    assert(all.take(0) =~= Seq::<RefRecord>::empty());
    assert(all.skip(0) =~= all);
    while rest.len() > 0
        invariant
            0 <= n <= all.len(),
            rest@ == all.skip(n),
            kept@ == refs_without(all.take(n), name@),
        decreases rest@.len(),
    {
        let row = rest.remove(0);
        proof {
            assert(row == all[n]);
            assert(all.take(n + 1).drop_last() =~= all.take(n));
            assert(rest@ =~= all.skip(n + 1));
            n = n + 1;
        }
        if row.name != *name {
            kept.push(row);
        }
    }
    assert(all.take(n) =~= all);
    kept
}

fn clear_branch(live: Vec<LiveRow>, name: &String) -> (kept: Vec<LiveRow>)
    ensures
        kept@ == live_without(live@, name@),
{
    let ghost all = live@;
    let mut rest = live;
    let mut kept: Vec<LiveRow> = Vec::new();
    let ghost mut n: int = 0;
    assert(all.take(0) =~= Seq::<LiveRow>::empty());
    assert(all.skip(0) =~= all);
    while rest.len() > 0
        invariant
            0 <= n <= all.len(),
            rest@ == all.skip(n),
            kept@ == live_without(all.take(n), name@),
        decreases rest@.len(),
    {
        let row = rest.remove(0);
        proof {
            assert(row == all[n]);
            assert(all.take(n + 1).drop_last() =~= all.take(n));
            assert(rest@ =~= all.skip(n + 1));
            n = n + 1;
        }
        if row.ref_name != *name {
            kept.push(row);
        }
    }
    assert(all.take(n) =~= all);
    kept
}

proof fn lemma_live_pushed(
    after: Seq<LiveRow>,
    before: Seq<LiveRow>,
    name: Seq<char>,
    id: Id,
    files: Seq<(Id, i64)>,
    row: LiveRow,
    file: (Id, i64),
)
    requires
        live_grown(after, before, name, id, files),
        live_row_of(row, name, id, file),
    ensures
        live_grown(after.push(row), before, name, id, files.push(file)),
{
    let all = after.push(row);
    assert(all.take(before.len() as int) =~= after.take(before.len() as int));
    assert forall|k: int| 0 <= k < files.push(file).len() implies live_row_of(
        #[trigger] all[before.len() + k],
        name,
        id,
        files.push(file)[k],
    ) by {
        if k < files.len() {
            assert(all[before.len() + k] == after[before.len() + k]);
        }
    }
}

fn add_branch_files(
    live: &mut Vec<LiveRow>,
    changes: &Vec<ChangeRow>,
    snapshots: &Vec<SnapshotRecord>,
    name: &String,
    id: Id,
)
    ensures
        live_grown(
            final(live)@,
            old(live)@,
            name@,
            id,
            snapshot_files(changes@, snapshots@, id),
        ),
{
    let ghost start = live@;
    let mut c: usize = 0;
    assert(live@.take(start.len() as int) =~= start);
    assert(changes@.take(0) =~= Seq::<ChangeRow>::empty());
    while c < changes.len()
        invariant
            c <= changes@.len(),
            live_grown(
                live@,
                start,
                name@,
                id,
                snapshot_files(changes@.take(c as int), snapshots@, id),
            ),
        decreases changes@.len() - c,
    {
        let ghost front = snapshot_files(changes@.take(c as int), snapshots@, id);
        assert(changes@.take(c + 1).drop_last() =~= changes@.take(c as int));
        if changes[c].snapshot_id == id && reads(&changes[c].change_kind, "add") {
            let file = changes[c].file_id;
            let mut s: usize = 0;
            assert(front + with_sequences(snapshots@.take(0), id, file) =~= front);
            while s < snapshots.len()
                invariant
                    s <= snapshots@.len(),
                    live_grown(
                        live@,
                        start,
                        name@,
                        id,
                        front + with_sequences(snapshots@.take(s as int), id, file),
                    ),
                decreases snapshots@.len() - s,
            {
                assert(snapshots@.take(s + 1).drop_last() =~= snapshots@.take(s as int));
                if snapshots[s].row.snapshot_id == id {
                    let number: i64 = snapshots[s].row.sequence_number;
                    let row = LiveRow {
                        ref_name: name.clone(),
                        file_id: file,
                        added_snapshot_id: id,
                        data_sequence_number: number,
                        file_sequence_number: number,
                    };
                    proof {
                        let more = with_sequences(snapshots@.take(s as int), id, file);
                        lemma_live_pushed(live@, start, name@, id, front + more, row, (file, number));
                        assert((front + more).push((file, number)) =~= front + more.push(
                            (file, number),
                        ));
                    }
                    live.push(row);
                }
                s = s + 1;
            }
            assert(snapshots@.take(s as int) =~= snapshots@);
        }
        c = c + 1;
    }
    assert(changes@.take(c as int) =~= changes@);
}

fn apply_change(
    rows: ImageRows,
    operations: &Vec<OperationRequest>,
    change: &RowChange,
) -> (r: Result<ImageRows, RuntimeError>)
    requires
        names_schema(operations@, change@),
    ensures
        match r {
            Ok(after) => !unnumbered(operations@, change@) && change_made(
                rows,
                after,
                operations@,
                change@,
            ),
            Err(e) => unnumbered(operations@, change@) && e@ == ordinal_error(),
        },
{
    let mut after = rows;
    let ghost before = after;
    match change {
        RowChange::PutProperty { .. } => {},
        RowChange::RemoveProperty { .. } => {},
        RowChange::InsertRef { name, ref_type, snapshot_id, version } => {
            after.refs.push(
                RefRecord {
                    name: name.clone(),
                    ref_type: ref_type.as_str().to_owned(),
                    snapshot_id: *snapshot_id,
                    created_version: *version,
                    updated_version: *version,
                },
            );
            assert(after.refs@.drop_last() =~= before.refs@);
        },
        RowChange::MoveRef { name, snapshot_id, version } => {
            move_ref(&mut after.refs, name, *snapshot_id, *version);
        },
        RowChange::RemoveRef { name } => {
            after.refs = remove_ref(after.refs, name);
        },
        RowChange::ClearBranch { name } => {
            after.live = clear_branch(after.live, name);
        },
        RowChange::AddBranchFiles { name, snapshot_id } => {
            add_branch_files(
                &mut after.live,
                &after.changes,
                &after.snapshots,
                name,
                *snapshot_id,
            );
        },
        RowChange::InsertSchema { operation, version, .. } => match &operations[*operation] {
            OperationRequest::AddSchema { schema, .. } => {
                match insert_schema(schema, *version) {
                    Err(e) => {
                        return Err(e);
                    },
                    Ok(record) => {
                        after.schemas.push(record);
                        assert(after.schemas@.drop_last() =~= before.schemas@);
                    },
                }
            },
            _ => {},
        },
        RowChange::SetCurrentSchema { schema_id } => {
            after.meta.current_schema_id = *schema_id as i64;
        },
    }
    Ok(after)
}

/// Makes the changes of a transaction, in their order. A schema with more fields
/// than can be numbered is refused.
pub fn apply_changes(
    rows: ImageRows,
    operations: &Vec<OperationRequest>,
    changes: &Vec<RowChange>,
) -> (r: Result<ImageRows, RuntimeError>)
    requires
        forall|i: int|
            0 <= i < changes@.len() ==> names_schema(operations@, (#[trigger] changes@[i])@),
    ensures
        match r {
            Ok(after) => {
                &&& changes_made(rows, after, operations@, changes_view(changes@))
                &&& forall|i: int|
                    0 <= i < changes@.len() ==> !unnumbered(operations@, (#[trigger] changes@[i])@)
            },
            Err(e) => {
                &&& e@ == ordinal_error()
                &&& exists|i: int|
                    0 <= i < changes@.len() && unnumbered(operations@, (#[trigger] changes@[i])@)
            },
        },
{
    let ghost before = rows;
    let mut after = rows;
    let mut i: usize = 0;
    while i < changes.len()
        invariant
            i <= changes@.len(),
            changes_made(before, after, operations@, changes_view(changes@.take(i as int))),
            forall|k: int| 0 <= k < i ==> !unnumbered(operations@, (#[trigger] changes@[k])@),
            forall|k: int|
                0 <= k < changes@.len() ==> names_schema(operations@, (#[trigger] changes@[k])@),
        decreases changes@.len() - i,
    {
        let ghost mid = after;
        assert(names_schema(operations@, changes@[i as int]@));
        match apply_change(after, operations, &changes[i]) {
            Err(e) => {
                assert(unnumbered(operations@, changes@[i as int]@));
                return Err(e);
            },
            Ok(next) => {
                after = next;
            },
        }
        proof {
            let seen = changes_view(changes@.take(i + 1));
            assert(seen.drop_last() =~= changes_view(changes@.take(i as int)));
            assert(seen.last() == changes@[i as int]@);
            lemma_one_more(before, mid, after, operations@, seen.drop_last(), seen.last());
            assert(seen.drop_last().push(seen.last()) =~= seen);
        }
        i = i + 1;
    }
    assert(changes@.take(i as int) =~= changes@);
    Ok(after)
}

/// The changes that are planned for operations add only schemas of theirs.
pub proof fn lemma_planned_schemas(
    catalog: Catalog,
    operations: Seq<OperationRequest>,
    version: i64,
    i: int,
)
    requires
        planned(catalog, operations, version) is Ok,
        0 <= i < planned(catalog, operations, version)->Ok_0.len(),
    ensures
        names_schema(operations, planned(catalog, operations, version)->Ok_0[i]),
    decreases operations.len(),
{
    if operations.len() > 0 {
        let front = operations.drop_last();
        let a = planned(catalog, front, version)->Ok_0;
        if i < a.len() {
            lemma_planned_schemas(catalog, front, version, i);
            if let ChangeView::InsertSchema(at, ..) = a[i] {
                assert(front[at] == operations[at]);
            }
        }
    }
}

} // verus!

//! A transaction on a valid image gives a valid image.
use crate::append_rows::{
    appended, change_row_from, file_row_from, live_row_from, moved_ref, AppendImage,
};
use crate::catalog::{lineage, ref_of, snapshot_of, Catalog, RefRow, RefType, SnapshotRow, Walk};
use crate::catalog_rows::{catalog_of, catalog_refs};
use crate::changed_rows::{
    change_made, changes_made, lemma_changes_split, live_row_of, live_without,
    refs_without, replaced_ref, snapshot_files, with_sequences,
};
use crate::error::ProtocolError;
use crate::genesis::{genesis_rows, GenesisImage};
use crate::hash::Id;
use crate::image::{
    added, belongs, contiguous, descriptors_check, facts_complete, has_file, has_schema,
    has_sequence, has_snapshot, history_check, history_holds, image_check, intents_of, is_main,
    last_commits, listed, live_is_backed, membership_agrees, meta_matches, paired, ref_check,
    ref_in_shape, refs_resolve, schema_check, schemas_check, snapshot_in_range, snapshot_rows,
    state_at, stored_kind, stored_metric_check, ExpectedImage, Membership,
};
use crate::projection::{
    commit_at, commit_projection, intent_check, intent_row, intents_check, parent_check,
    ref_record, snapshot_projection, CommitFacts,
};
use crate::publication::{replay_of, ActionView, EventView, PinFacts, Publication};
use crate::replay::{committed_rows, ReplayedCommit};
use crate::round_trip::{
    lemma_commit_row, lemma_intent_kept, lemma_intent_row, lemma_no_snapshots, stored_intent,
};
use crate::schema::{all_field_ids, fields_view, Schema};
use crate::stored_schema::{lemma_stored_schema_is_valid, without_mappings};
use crate::tables::{
    ChangeRow, ImageRows, LiveRow, MetaRow, RefRecord, SchemaRecord, SnapshotRecord,
};
use crate::transactions::{
    all_met, branch_changes, lemma_evaluation, met, operation_changes, planned, prepared,
    progress, put_changes, remove_changes, times, ChangeView, OperationRequest, Requirement,
    RequirementView, TransactionRequest,
};
use crate::valid_append::{
    lemma_metrics_checked, lemma_no_intents, lemma_no_last_commit, lemma_ref_named,
    lemma_refs_checked, lemma_rows_grow, lemma_state_kept,
};
use vstd::prelude::*;

verus! {

pub open spec fn distinct_names(refs: Seq<RefRecord>) -> bool {
    forall|i: int, j: int|
        0 <= i < j < refs.len() ==> (#[trigger] refs[i]).name@ != (#[trigger] refs[j]).name@
}

pub open spec fn has_ref(refs: Seq<RefRecord>, name: Seq<char>) -> bool {
    exists|i: int| 0 <= i < refs.len() && (#[trigger] refs[i]).name@ == name
}

/// What the keys of the tables say: refs have different names, a file is live on
/// a ref that exists, and a snapshot adds files that are stored.
pub open spec fn keyed(rows: ImageRows) -> bool {
    &&& distinct_names(rows.refs@)
    &&& forall|i: int|
        0 <= i < rows.live@.len() ==> has_ref(rows.refs@, (#[trigger] rows.live@[i]).ref_name@)
    &&& forall|i: int|
        0 <= i < rows.changes@.len() ==> has_file(
            rows.files@,
            (#[trigger] rows.changes@[i]).file_id,
        )
}

/// The schemas that the operations add name each field once and have no mapping.
pub open spec fn plain_schemas(operations: Seq<OperationRequest>) -> bool {
    forall|i: int|
        0 <= i < operations.len() ==> (#[trigger] operations[i]
            matches OperationRequest::AddSchema { schema, .. } ==> {
            &&& all_field_ids(fields_view(schema.fields@)).no_duplicates()
            &&& without_mappings(fields_view(schema.fields@))
        })
}

/// What the head that publishes a metadata commit says of the image.
pub open spec fn next_committed(
    next: ExpectedImage,
    expected: ExpectedImage,
    before: ImageRows,
    commit: ReplayedCommit,
) -> bool {
    &&& next.table_id == expected.table_id
    &&& next.table_version == commit.table_version
    &&& next.semantic_state == commit.semantic_state
    &&& next.commit_id == commit.commit_id
    &&& next.commit_hash == commit.commit_hash
    &&& next.commit_uri@ == commit.commit_uri@
    &&& next.reader_features_json@ == expected.reader_features_json@
    &&& next.writer_features_json@ == expected.writer_features_json@
    &&& next.reader_features@ == expected.reader_features@
    &&& next.writer_features@ == expected.writer_features@
    &&& next.previous_semantic_state == state_at(
        before.commits@,
        expected.table_version as int,
    )
}

// ---------------------------------------------------------------- the catalog

proof fn lemma_listed_requirement(
    catalog: Catalog,
    requirements: Seq<Requirement>,
    wanted: RequirementView,
)
    requires
        all_met(catalog, requirements),
        times(requirements, wanted) > 0,
    ensures
        met(catalog, wanted),
{
    let i = lemma_times(requirements, wanted);
    assert(met(catalog, requirements[i]@));
}

proof fn lemma_times(requirements: Seq<Requirement>, wanted: RequirementView) -> (i: int)
    requires
        times(requirements, wanted) > 0,
    ensures
        0 <= i < requirements.len(),
        requirements[i]@ == wanted,
    decreases requirements.len(),
{
    if requirements.last()@ == wanted {
        requirements.len() - 1
    } else {
        lemma_times(requirements.drop_last(), wanted)
    }
}

proof fn lemma_catalog_ref(catalog: Seq<RefRow>, refs: Seq<RefRecord>, name: Seq<char>)
    requires
        catalog_refs(catalog, refs),
    ensures
        match ref_of(catalog, name) {
            None => !has_ref(refs, name),
            Some((kind, id)) => exists|i: int|
                0 <= i < refs.len() && (#[trigger] refs[i]).name@ == name && refs[i].ref_type@
                    == kind.spec_text() && refs[i].snapshot_id == id,
        },
    decreases refs.len(),
{
    if refs.len() > 0 {
        assert(catalog[0].name@ == refs[0].name@);
        let a = catalog.skip(1);
        let b = refs.skip(1);
        assert forall|i: int| 0 <= i < b.len() implies {
            &&& (#[trigger] a[i]).name@ == b[i].name@
            &&& a[i].ref_type.spec_text() == b[i].ref_type@
            &&& a[i].snapshot_id == b[i].snapshot_id
        } by {
            assert(a[i] == catalog[i + 1]);
            assert(b[i] == refs[i + 1]);
        }
        if catalog[0].name@ == name {
            assert(refs[0].name@ == name);
        } else {
            lemma_catalog_ref(a, b, name);
            match ref_of(a, name) {
                None => {
                    if has_ref(refs, name) {
                        let i = choose|i: int|
                            0 <= i < refs.len() && (#[trigger] refs[i]).name@ == name;
                        assert(b[i - 1] == refs[i]);
                    }
                },
                Some((kind, id)) => {
                    let i = choose|i: int|
                        0 <= i < b.len() && (#[trigger] b[i]).name@ == name && b[i].ref_type@
                            == kind.spec_text() && b[i].snapshot_id == id;
                    assert(refs[i + 1] == b[i]);
                },
            }
        }
    }
}

proof fn lemma_known_snapshot(snapshots: Seq<SnapshotRecord>, id: Id)
    requires
        snapshot_of(snapshot_rows(snapshots), id) is Some,
    ensures
        has_snapshot(snapshots, id),
    decreases snapshots.len(),
{
    let rows = snapshot_rows(snapshots);
    if snapshots.len() > 0 {
        assert(rows[0] == snapshots[0].row);
        if rows[0].snapshot_id != id {
            assert(rows.skip(1) =~= snapshot_rows(snapshots.skip(1)));
            lemma_known_snapshot(snapshots.skip(1), id);
            let rest = snapshots.skip(1);
            let i = choose|i: int|
                0 <= i < rest.len() && (#[trigger] rest[i]).row.snapshot_id == id;
            assert(snapshots[i + 1] == rest[i]);
        }
    }
}

/// The walk that materializes a branch finds what the walk through the history
/// finds.
proof fn lemma_same_walk(rows: Seq<SnapshotRow>, tip: Option<Id>, seen: Seq<Id>, last: int)
    requires
        lineage(Walk::Branch, rows, tip, seen, last) is Ok,
    ensures
        lineage(Walk::History, rows, tip, seen, last) == lineage(
            Walk::Branch,
            rows,
            tip,
            seen,
            last,
        ),
    decreases last,
{
    if let Some(id) = tip {
        let row = snapshot_of(rows, id)->0;
        lemma_same_walk(rows, row.parent_snapshot_id, seen.push(id), row.sequence_number as int);
    }
}

// ----------------------------------------------------------------- live files

proof fn lemma_live_without(live: Seq<LiveRow>, name: Seq<char>)
    ensures
        forall|l: LiveRow| #[trigger]
            live_without(live, name).contains(l) <==> live.contains(l) && l.ref_name@ != name,
    decreases live.len(),
{
    if live.len() > 0 {
        let front = live.drop_last();
        let last = live.last();
        lemma_live_without(front, name);
        let kept = live_without(live, name);
        let rest = live_without(front, name);
        assert forall|l: LiveRow| #[trigger] kept.contains(l) <==> live.contains(l) && l.ref_name@
            != name by {
            assert(live.contains(l) <==> front.contains(l) || l == last) by {
                assert(live =~= front.push(last));
                lemma_push_contains(front, last, l);
            }
            if last.ref_name@ != name {
                lemma_push_contains(rest, last, l);
            }
        }
    }
}

proof fn lemma_push_contains<A>(s: Seq<A>, last: A, x: A)
    ensures
        s.push(last).contains(x) <==> s.contains(x) || x == last,
{
    if s.contains(x) {
        let i = choose|i: int| 0 <= i < s.len() && s[i] == x;
        assert(s.push(last)[i] == x);
    }
    assert(s.push(last)[s.len() as int] == last);
    if s.push(last).contains(x) {
        let i = choose|i: int| 0 <= i < s.push(last).len() && s.push(last)[i] == x;
        if i < s.len() {
            assert(s[i] == x);
        }
    }
}

proof fn lemma_join_contains<A>(a: Seq<A>, b: Seq<A>, x: A)
    ensures
        (a + b).contains(x) <==> a.contains(x) || b.contains(x),
{
    let all = a + b;
    if a.contains(x) {
        let i = choose|i: int| 0 <= i < a.len() && a[i] == x;
        assert(all[i] == x);
    }
    if b.contains(x) {
        let i = choose|i: int| 0 <= i < b.len() && b[i] == x;
        assert(all[a.len() + i] == x);
    }
    if all.contains(x) {
        let i = choose|i: int| 0 <= i < all.len() && all[i] == x;
        if i < a.len() {
            assert(a[i] == x);
        } else {
            assert(b[i - a.len()] == x);
        }
    }
}

proof fn lemma_with_sequences(snapshots: Seq<SnapshotRecord>, id: Id, file: Id, f: Id, s: i64)
    ensures
        with_sequences(snapshots, id, file).contains((f, s)) <==> f == file && has_sequence(
            snapshots,
            id,
            s,
        ),
    decreases snapshots.len(),
{
    if snapshots.len() > 0 {
        let front = snapshots.drop_last();
        let last = snapshots.last();
        lemma_with_sequences(front, id, file, f, s);
        let rest = with_sequences(front, id, file);
        if last.row.snapshot_id == id {
            lemma_push_contains(rest, (file, last.row.sequence_number), (f, s));
        }
        if has_sequence(front, id, s) {
            let i = choose|i: int|
                0 <= i < front.len() && (#[trigger] front[i]).row.snapshot_id == id
                    && front[i].row.sequence_number == s;
            assert(snapshots[i] == front[i]);
        }
        if has_sequence(snapshots, id, s) {
            let i = choose|i: int|
                0 <= i < snapshots.len() && (#[trigger] snapshots[i]).row.snapshot_id == id
                    && snapshots[i].row.sequence_number == s;
            if i < front.len() {
                assert(front[i] == snapshots[i]);
            }
        }
        assert(snapshots[snapshots.len() - 1] == last);
    }
}

proof fn lemma_snapshot_files(
    changes: Seq<ChangeRow>,
    snapshots: Seq<SnapshotRecord>,
    id: Id,
    f: Id,
    s: i64,
)
    ensures
        snapshot_files(changes, snapshots, id).contains((f, s)) <==> added(changes, id, f)
            && has_sequence(snapshots, id, s),
    decreases changes.len(),
{
    if changes.len() > 0 {
        let front = changes.drop_last();
        let last = changes.last();
        lemma_snapshot_files(front, snapshots, id, f, s);
        if last.snapshot_id == id && last.change_kind@ == "add"@ {
            lemma_with_sequences(snapshots, id, last.file_id, f, s);
            lemma_join_contains(
                snapshot_files(front, snapshots, id),
                with_sequences(snapshots, id, last.file_id),
                (f, s),
            );
        }
        if added(front, id, f) {
            let i = choose|i: int|
                0 <= i < front.len() && (#[trigger] front[i]).snapshot_id == id && front[i].file_id
                    == f && front[i].change_kind@ == "add"@;
            assert(changes[i] == front[i]);
        }
        if added(changes, id, f) {
            let i = choose|i: int|
                0 <= i < changes.len() && (#[trigger] changes[i]).snapshot_id == id
                    && changes[i].file_id == f && changes[i].change_kind@ == "add"@;
            if i < front.len() {
                assert(front[i] == changes[i]);
            }
        }
        assert(changes[changes.len() - 1] == last);
    }
}

proof fn lemma_single(
    before: ImageRows,
    after: ImageRows,
    operations: Seq<OperationRequest>,
    change: ChangeView,
)
    requires
        changes_made(before, after, operations, seq![change]),
    ensures
        change_made(before, after, operations, change),
{
    let list = seq![change];
    reveal_with_fuel(changes_made, 2);
    assert(list.drop_last().len() == 0);
    let mid = choose|mid: ImageRows|
        changes_made(before, mid, operations, list.drop_last()) && #[trigger] change_made(
            mid,
            after,
            operations,
            list.last(),
        );
}

/// What a live row says of its file.
spec fn shows(l: LiveRow) -> Membership {
    Membership {
        file_id: l.file_id,
        snapshot_id: l.added_snapshot_id,
        data_sequence: l.data_sequence_number,
        file_sequence: l.file_sequence_number,
    }
}

/// The live files of one ref are those of a lineage; those of others are as they
/// were.
spec fn filled(before: ImageRows, after: ImageRows, name: Seq<char>, chain: Seq<Id>) -> bool {
    &&& after == (ImageRows { live: after.live, ..before })
    &&& forall|l: LiveRow|
        l.ref_name@ != name ==> (#[trigger] after.live@.contains(l) <==> before.live@.contains(l))
    &&& forall|l: LiveRow| #[trigger]
        after.live@.contains(l) && l.ref_name@ == name ==> belongs(before, chain, shows(l))
    &&& forall|m: Membership| #[trigger] belongs(before, chain, m) ==> listed(after, name, m)
}

proof fn lemma_listed_row(rows: ImageRows, name: Seq<char>, m: Membership, l: LiveRow)
    requires
        rows.live@.contains(l),
        l.ref_name@ == name,
        shows(l) == m,
    ensures
        listed(rows, name, m),
{
    let i = choose|i: int| 0 <= i < rows.live@.len() && rows.live@[i] == l;
    assert(rows.live@[i].ref_name@ == name);
}

proof fn lemma_row_listed(rows: ImageRows, name: Seq<char>, m: Membership) -> (l: LiveRow)
    requires
        listed(rows, name, m),
    ensures
        rows.live@.contains(l),
        l.ref_name@ == name,
        shows(l) == m,
{
    let i = choose|i: int|
        {
            &&& 0 <= i < rows.live@.len()
            &&& (#[trigger] rows.live@[i]).ref_name@ == name
            &&& rows.live@[i].file_id == m.file_id
            &&& rows.live@[i].added_snapshot_id == m.snapshot_id
            &&& rows.live@[i].data_sequence_number == m.data_sequence
            &&& rows.live@[i].file_sequence_number == m.file_sequence
        };
    rows.live@[i]
}

proof fn lemma_grown(
    before: ImageRows,
    mid: ImageRows,
    after: ImageRows,
    operations: Seq<OperationRequest>,
    name: Seq<char>,
    chain: Seq<Id>,
    id: Id,
)
    requires
        filled(before, mid, name, chain),
        change_made(mid, after, operations, ChangeView::AddBranchFiles(name, id)),
    ensures
        filled(before, after, name, chain.push(id)),
{
    let longer = chain.push(id);
    let files = snapshot_files(mid.changes@, mid.snapshots@, id);
    let n = mid.live@.len() as int;
    assert forall|l: LiveRow| mid.live@.contains(l) implies #[trigger] after.live@.contains(l) by {
        let i = choose|i: int| 0 <= i < n && mid.live@[i] == l;
        assert(after.live@.take(n)[i] == after.live@[i]);
        assert(after.live@[i] == l);
    }
    assert forall|l: LiveRow| #[trigger] after.live@.contains(l) implies mid.live@.contains(l) || (
    l.ref_name@ == name && l.added_snapshot_id == id && l.data_sequence_number
        == l.file_sequence_number && files.contains((l.file_id, l.data_sequence_number))) by {
        let i = choose|i: int| 0 <= i < after.live@.len() && after.live@[i] == l;
        if i < n {
            assert(after.live@.take(n)[i] == after.live@[i]);
            assert(mid.live@[i] == l);
        } else {
            let k = i - n;
            assert(live_row_of(after.live@[mid.live@.len() + k], name, id, files[k]));
            assert(files[k] == (l.file_id, l.data_sequence_number));
        }
    }
    assert forall|l: LiveRow| #[trigger] after.live@.contains(l) && l.ref_name@
        == name implies belongs(before, longer, shows(l)) by {
        if mid.live@.contains(l) {
            assert(belongs(before, chain, shows(l)));
            lemma_push_contains(chain, id, l.added_snapshot_id);
        } else {
            lemma_snapshot_files(mid.changes@, mid.snapshots@, id, l.file_id, l.data_sequence_number);
            lemma_push_contains(chain, id, id);
        }
    }
    assert forall|m: Membership| #[trigger] belongs(before, longer, m) implies listed(
        after,
        name,
        m,
    ) by {
        lemma_push_contains(chain, id, m.snapshot_id);
        if chain.contains(m.snapshot_id) {
            assert(belongs(before, chain, m));
            let l = lemma_row_listed(mid, name, m);
            lemma_listed_row(after, name, m, l);
        } else {
            lemma_snapshot_files(mid.changes@, mid.snapshots@, id, m.file_id, m.data_sequence);
            let k = choose|k: int|
                0 <= k < files.len() && files[k] == (m.file_id, m.data_sequence);
            let l = after.live@[mid.live@.len() + k];
            assert(live_row_of(l, name, id, files[k]));
            assert(after.live@.contains(l));
            lemma_listed_row(after, name, m, l);
        }
    }
}

proof fn lemma_filled(
    before: ImageRows,
    after: ImageRows,
    operations: Seq<OperationRequest>,
    name: Seq<char>,
    chain: Seq<Id>,
)
    requires
        changes_made(before, after, operations, branch_changes(name, chain)),
    ensures
        filled(before, after, name, chain),
    decreases chain.len(),
{
    let all = branch_changes(name, chain);
    if chain.len() == 0 {
        assert(all =~= seq![ChangeView::ClearBranch(name)]);
        lemma_single(before, after, operations, ChangeView::ClearBranch(name));
        lemma_live_without(before.live@, name);
    } else {
        let id = chain.last();
        let front = branch_changes(name, chain.drop_last());
        let last = ChangeView::AddBranchFiles(name, id);
        assert(all =~= front + seq![last]);
        let mid = lemma_changes_split(before, after, operations, front, seq![last]);
        lemma_single(mid, after, operations, last);
        lemma_filled(before, mid, operations, name, chain.drop_last());
        lemma_grown(before, mid, after, operations, name, chain.drop_last(), id);
        assert(chain.drop_last().push(id) =~= chain);
    }
}

// ------------------------------------------------------------ one ref changes

/// A ref that the image may hold at a version.
spec fn ref_holds(rows: ImageRows, r: RefRecord, version: int) -> bool {
    &&& ref_in_shape(r, version)
    &&& r.snapshot_id matches Some(id) ==> has_snapshot(rows.snapshots@, id)
    &&& ref_check(rows, r) is Ok
}

/// The rows while the changes of a transaction are made: those that no operation
/// changes are as they were, and the others are valid.
spec fn sound(before: ImageRows, rows: ImageRows, version: int) -> bool {
    &&& rows == (ImageRows {
        refs: rows.refs,
        live: rows.live,
        schemas: rows.schemas,
        meta: rows.meta,
        ..before
    })
    &&& rows.meta == (MetaRow { current_schema_id: rows.meta.current_schema_id, ..before.meta })
    &&& keyed(rows)
    &&& before.schemas@.len() <= rows.schemas@.len()
    &&& rows.schemas@.take(before.schemas@.len() as int) == before.schemas@
    &&& forall|i: int|
        0 <= i < rows.schemas@.len() ==> schema_check(#[trigger] rows.schemas@[i]) is Ok
    &&& has_schema(rows.schemas@, rows.meta.current_schema_id)
    &&& forall|i: int|
        0 <= i < rows.refs@.len() ==> ref_holds(rows, #[trigger] rows.refs@[i], version)
    &&& exists|i: int| 0 <= i < rows.refs@.len() && is_main(#[trigger] rows.refs@[i])
    &&& live_is_backed(rows)
}

/// The refs that are not claimed are as they were.
spec fn others_kept(before: ImageRows, rows: ImageRows, claimed: Seq<Seq<char>>) -> bool {
    forall|r: RefRecord|
        !claimed.contains(r.name@) ==> (#[trigger] rows.refs@.contains(r)
            <==> before.refs@.contains(r))
}

proof fn lemma_same_check(a: ImageRows, b: ImageRows, r: RefRecord)
    requires
        a.snapshots == b.snapshots,
        a.changes == b.changes,
        forall|l: LiveRow|
            l.ref_name@ == r.name@ ==> (#[trigger] a.live@.contains(l) <==> b.live@.contains(l)),
    ensures
        ref_check(a, r) is Ok <==> ref_check(b, r) is Ok,
{
    assert forall|m: Membership| listed(a, r.name@, m) <==> listed(b, r.name@, m) by {
        if listed(a, r.name@, m) {
            let l = lemma_row_listed(a, r.name@, m);
            lemma_listed_row(b, r.name@, m, l);
        }
        if listed(b, r.name@, m) {
            let l = lemma_row_listed(b, r.name@, m);
            assert(a.live@.contains(l));
            lemma_listed_row(a, r.name@, m, l);
        }
    }
    assert forall|m: Membership, chain: Seq<Id>| #[trigger] belongs(a, chain, m) <==> belongs(
        b,
        chain,
        m,
    ) by {}
    assert forall|chain: Seq<Id>| #[trigger] membership_agrees(a, r.name@, chain)
        <==> membership_agrees(b, r.name@, chain) by {
        if membership_agrees(a, r.name@, chain) {
            assert forall|m: Membership| #[trigger] listed(b, r.name@, m) <==> belongs(
                b,
                chain,
                m,
            ) by {
                assert(listed(a, r.name@, m) <==> belongs(a, chain, m));
            }
        }
        if membership_agrees(b, r.name@, chain) {
            assert forall|m: Membership| #[trigger] listed(a, r.name@, m) <==> belongs(
                a,
                chain,
                m,
            ) by {
                assert(listed(b, r.name@, m) <==> belongs(b, chain, m));
            }
        }
    }
}

/// Only the ref by that name, and the files that are live on it, differ.
spec fn only_ref(before: ImageRows, after: ImageRows, name: Seq<char>) -> bool {
    &&& after == (ImageRows { refs: after.refs, live: after.live, ..before })
    &&& distinct_names(after.refs@)
    &&& forall|r: RefRecord|
        r.name@ != name ==> (#[trigger] after.refs@.contains(r) <==> before.refs@.contains(r))
    &&& forall|l: LiveRow|
        l.ref_name@ != name ==> (#[trigger] after.live@.contains(l) <==> before.live@.contains(l))
}

proof fn lemma_ref_placed(
    before: ImageRows,
    mid: ImageRows,
    after: ImageRows,
    name: Seq<char>,
    claimed: Seq<Seq<char>>,
    version: int,
)
    requires
        sound(before, mid, version),
        others_kept(before, mid, claimed),
        only_ref(mid, after, name),
        forall|r: RefRecord| #[trigger]
            after.refs@.contains(r) && r.name@ == name ==> ref_holds(after, r, version),
        forall|l: LiveRow| #[trigger]
            after.live@.contains(l) && l.ref_name@ == name ==> has_ref(after.refs@, name)
                && added(after.changes@, l.added_snapshot_id, l.file_id),
        exists|r: RefRecord| #[trigger] after.refs@.contains(r) && is_main(r),
    ensures
        sound(before, after, version),
        others_kept(before, after, claimed.push(name)),
{
    assert forall|i: int| 0 <= i < after.refs@.len() implies ref_holds(
        after,
        #[trigger] after.refs@[i],
        version,
    ) by {
        let r = after.refs@[i];
        assert(after.refs@.contains(r));
        if r.name@ != name {
            assert(mid.refs@.contains(r));
            let k = choose|k: int| 0 <= k < mid.refs@.len() && mid.refs@[k] == r;
            assert(ref_holds(mid, mid.refs@[k], version));
            lemma_same_check(after, mid, r);
        }
    }
    assert forall|i: int| 0 <= i < after.live@.len() implies has_ref(
        after.refs@,
        (#[trigger] after.live@[i]).ref_name@,
    ) && has_file(after.files@, after.live@[i].file_id) && added(
        after.changes@,
        after.live@[i].added_snapshot_id,
        after.live@[i].file_id,
    ) by {
        let l = after.live@[i];
        assert(after.live@.contains(l));
        if l.ref_name@ != name {
            assert(mid.live@.contains(l));
            let k = choose|k: int| 0 <= k < mid.live@.len() && mid.live@[k] == l;
            assert(has_ref(mid.refs@, mid.live@[k].ref_name@));
            let j = choose|j: int|
                0 <= j < mid.refs@.len() && (#[trigger] mid.refs@[j]).name@ == l.ref_name@;
            let r = mid.refs@[j];
            assert(mid.refs@.contains(r));
            assert(after.refs@.contains(r));
            let t = choose|t: int| 0 <= t < after.refs@.len() && after.refs@[t] == r;
            assert(after.refs@[t].name@ == l.ref_name@);
        } else {
            let c = choose|c: int|
                0 <= c < after.changes@.len() && (#[trigger] after.changes@[c]).snapshot_id
                    == l.added_snapshot_id && after.changes@[c].file_id == l.file_id
                    && after.changes@[c].change_kind@ == "add"@;
            assert(has_file(mid.files@, mid.changes@[c].file_id));
        }
    }
    let r = choose|r: RefRecord| #[trigger] after.refs@.contains(r) && is_main(r);
    let t = choose|t: int| 0 <= t < after.refs@.len() && after.refs@[t] == r;
    assert(is_main(after.refs@[t]));
    assert forall|r: RefRecord| !claimed.push(name).contains(r.name@) implies (
    #[trigger] after.refs@.contains(r) <==> before.refs@.contains(r)) by {
        lemma_push_contains(claimed, name, r.name@);
        assert(mid.refs@.contains(r) <==> before.refs@.contains(r));
    }
}

/// `main` stays where another ref changes.
proof fn lemma_main_elsewhere(
    before: ImageRows,
    mid: ImageRows,
    after: ImageRows,
    name: Seq<char>,
    version: int,
)
    requires
        sound(before, mid, version),
        only_ref(mid, after, name),
        name != "main"@,
    ensures
        exists|r: RefRecord| #[trigger] after.refs@.contains(r) && is_main(r),
{
    let i = choose|i: int| 0 <= i < mid.refs@.len() && is_main(#[trigger] mid.refs@[i]);
    let r = mid.refs@[i];
    assert(mid.refs@.contains(r));
    assert(after.refs@.contains(r));
}

proof fn lemma_filled_agrees(
    before: ImageRows,
    after: ImageRows,
    name: Seq<char>,
    chain: Seq<Id>,
)
    requires
        filled(before, after, name, chain),
    ensures
        membership_agrees(after, name, chain),
{
    assert forall|m: Membership| #[trigger] listed(after, name, m) <==> belongs(
        after,
        chain,
        m,
    ) by {
        if listed(after, name, m) {
            let l = lemma_row_listed(after, name, m);
            assert(belongs(before, chain, shows(l)));
        }
        if belongs(after, chain, m) {
            assert(belongs(before, chain, m));
        }
    }
}

proof fn lemma_kinds_differ()
    ensures
        RefType::Tag.spec_text() != RefType::Branch.spec_text(),
        "tag"@ != "branch"@,
{
    reveal_strlit("tag");
    reveal_strlit("branch");
    assert("tag"@.len() != "branch"@.len());
}

/// A ref by that name that an operation leaves in the rows.
proof fn lemma_branch_holds(
    catalog: Catalog,
    before: ImageRows,
    after: ImageRows,
    name: Seq<char>,
    r: RefRecord,
    version: int,
)
    requires
        catalog.snapshots@ == snapshot_rows(after.snapshots@),
        lineage(
            Walk::Branch,
            catalog.snapshots@,
            r.snapshot_id,
            Seq::empty(),
            u64::MAX as int,
        ) is Ok,
        filled(
            before,
            after,
            name,
            lineage(
                Walk::Branch,
                catalog.snapshots@,
                r.snapshot_id,
                Seq::empty(),
                u64::MAX as int,
            )->Ok_0,
        ),
        r.name@ == name,
        r.ref_type@ == "branch"@,
        r.created_version <= r.updated_version <= version,
        r.snapshot_id matches Some(id) ==> has_snapshot(after.snapshots@, id),
    ensures
        ref_holds(after, r, version),
{
    let rows = snapshot_rows(after.snapshots@);
    lemma_same_walk(rows, r.snapshot_id, Seq::empty(), u64::MAX as int);
    let chain = lineage(Walk::Branch, rows, r.snapshot_id, Seq::empty(), u64::MAX as int)->Ok_0;
    lemma_filled_agrees(before, after, name, chain);
    lemma_kinds_differ();
}

/// What an operation finds when the ones before it have been carried out.
spec fn underway(
    catalog: Catalog,
    requirements: Seq<Requirement>,
    before: ImageRows,
    rows: ImageRows,
    claimed: Seq<Seq<char>>,
    version: i64,
) -> bool {
    &&& all_met(catalog, requirements)
    &&& catalog_of(catalog, before)
    &&& sound(before, rows, version as int)
    &&& others_kept(before, rows, claimed)
    &&& version >= 0
}

proof fn lemma_created(
    catalog: Catalog,
    requirements: Seq<Requirement>,
    before: ImageRows,
    mid: ImageRows,
    after: ImageRows,
    operations: Seq<OperationRequest>,
    claimed: Seq<Seq<char>>,
    earlier: Seq<OperationRequest>,
    operation: OperationRequest,
    version: i64,
)
    requires
        underway(catalog, requirements, before, mid, claimed, version),
        operation is CreateRef,
        !claimed.contains(operation->CreateRef_name@),
        times(requirements, RequirementView::RefAbsent(operation->CreateRef_name@)) == 1,
        operation->CreateRef_ref_type is Tag ==> operation->CreateRef_snapshot_id is Some,
        operation->CreateRef_snapshot_id matches Some(id) ==> times(
            requirements,
            RequirementView::SnapshotExists(id),
        ) == 1,
        operation_changes(catalog, earlier, operation, version) is Ok,
        changes_made(
            mid,
            after,
            operations,
            operation_changes(catalog, earlier, operation, version)->Ok_0,
        ),
    ensures
        sound(before, after, version as int),
        others_kept(before, after, claimed.push(operation->CreateRef_name@)),
        after.schemas == mid.schemas,
{
    let name = operation->CreateRef_name@;
    let kind = operation->CreateRef_ref_type;
    let tip = operation->CreateRef_snapshot_id;
    lemma_listed_requirement(catalog, requirements, RequirementView::RefAbsent(name));
    lemma_catalog_ref(catalog.refs@, before.refs@, name);
    assert(!has_ref(mid.refs@, name)) by {
        if has_ref(mid.refs@, name) {
            let i = choose|i: int| 0 <= i < mid.refs@.len() && (#[trigger] mid.refs@[i]).name@ == name;
            let r = mid.refs@[i];
            assert(mid.refs@.contains(r));
            assert(before.refs@.contains(r));
            let k = choose|k: int| 0 <= k < before.refs@.len() && before.refs@[k] == r;
            assert(before.refs@[k].name@ == name);
        }
    }
    assert(name != "main"@) by {
        let i = choose|i: int| 0 <= i < mid.refs@.len() && is_main(#[trigger] mid.refs@[i]);
        assert(mid.refs@[i].name@ == "main"@);
    }
    if let Some(id) = tip {
        lemma_listed_requirement(catalog, requirements, RequirementView::SnapshotExists(id));
        lemma_known_snapshot(before.snapshots@, id);
    }
    let insert = ChangeView::InsertRef(name, kind, tip, version);
    let more = operation_changes(catalog, earlier, operation, version)->Ok_0;
    let chain = if kind is Branch {
        lineage(Walk::Branch, catalog.snapshots@, tip, Seq::empty(), u64::MAX as int)->Ok_0
    } else {
        Seq::empty()
    };
    let first = if kind is Branch {
        assert(more =~= seq![insert] + branch_changes(name, chain));
        let first = lemma_changes_split(
            mid,
            after,
            operations,
            seq![insert],
            branch_changes(name, chain),
        );
        lemma_filled(first, after, operations, name, chain);
        first
    } else {
        assert(more =~= seq![insert]);
        after
    };
    lemma_single(mid, first, operations, insert);
    let r = first.refs@.last();
    assert(first.refs@ =~= mid.refs@.push(r));
    assert forall|i: int| 0 <= i < mid.refs@.len() implies (#[trigger] mid.refs@[i]).name@
        != name by {}
    assert forall|x: RefRecord| #[trigger] after.refs@.contains(x) <==> mid.refs@.contains(x) || x
        == r by {
        lemma_push_contains(mid.refs@, r, x);
    }
    assert forall|x: RefRecord| #[trigger] after.refs@.contains(x) && x.name@ == name implies x
        == r by {
        if mid.refs@.contains(x) {
            let i = choose|i: int| 0 <= i < mid.refs@.len() && mid.refs@[i] == x;
            assert(mid.refs@[i].name@ != name);
        }
    }
    assert(distinct_names(after.refs@)) by {
        assert forall|i: int, j: int| 0 <= i < j < after.refs@.len() implies (
        #[trigger] after.refs@[i]).name@ != (#[trigger] after.refs@[j]).name@ by {
            assert(after.refs@[i] == mid.refs@[i]);
            if j < mid.refs@.len() {
                assert(after.refs@[j] == mid.refs@[j]);
            }
        }
    }
    assert(after.refs@[mid.refs@.len() as int].name@ == name);
    assert(has_ref(after.refs@, name));
    assert forall|l: LiveRow| mid.live@.contains(l) implies l.ref_name@ != name by {
        let i = choose|i: int| 0 <= i < mid.live@.len() && mid.live@[i] == l;
        assert(has_ref(mid.refs@, mid.live@[i].ref_name@));
    }
    assert(only_ref(mid, after, name));
    if kind is Branch {
        lemma_branch_holds(catalog, first, after, name, r, version as int);
        assert forall|l: LiveRow| #[trigger] after.live@.contains(l) && l.ref_name@
            == name implies added(after.changes@, l.added_snapshot_id, l.file_id) by {
            assert(belongs(first, chain, shows(l)));
        }
    } else {
        lemma_kinds_differ();
        assert forall|m: Membership| #[trigger] listed(after, name, m) <==> belongs(
            after,
            Seq::empty(),
            m,
        ) by {
            if listed(after, name, m) {
                let l = lemma_row_listed(after, name, m);
                assert(mid.live@.contains(l));
            }
        }
        assert(membership_agrees(after, name, Seq::empty()));
        assert(ref_holds(after, r, version as int));
    }
    lemma_main_elsewhere(before, mid, after, name, version as int);
    lemma_ref_placed(before, mid, after, name, claimed, version as int);
}

proof fn lemma_same_name(refs: Seq<RefRecord>, i: int, r: RefRecord)
    requires
        distinct_names(refs),
        0 <= i < refs.len(),
        refs.contains(r),
        refs[i].name@ == r.name@,
    ensures
        refs[i] == r,
{
    let k = choose|k: int| 0 <= k < refs.len() && refs[k] == r;
    if k < i {
        assert(refs[k].name@ != refs[i].name@);
    } else if i < k {
        assert(refs[i].name@ != refs[k].name@);
    }
}

proof fn lemma_replaced(
    catalog: Catalog,
    requirements: Seq<Requirement>,
    before: ImageRows,
    mid: ImageRows,
    after: ImageRows,
    operations: Seq<OperationRequest>,
    claimed: Seq<Seq<char>>,
    earlier: Seq<OperationRequest>,
    operation: OperationRequest,
    version: i64,
)
    requires
        underway(catalog, requirements, before, mid, claimed, version),
        operation is ReplaceRef,
        !claimed.contains(operation->ReplaceRef_name@),
        times(
            requirements,
            RequirementView::RefExists(operation->ReplaceRef_name@, RefType::Branch),
        ) == 1,
        times(requirements, RequirementView::SnapshotExists(operation->ReplaceRef_snapshot_id)) == 1,
        operation_changes(catalog, earlier, operation, version) is Ok,
        changes_made(
            mid,
            after,
            operations,
            operation_changes(catalog, earlier, operation, version)->Ok_0,
        ),
    ensures
        sound(before, after, version as int),
        others_kept(before, after, claimed.push(operation->ReplaceRef_name@)),
        after.schemas == mid.schemas,
{
    let name = operation->ReplaceRef_name@;
    let id = operation->ReplaceRef_snapshot_id;
    lemma_listed_requirement(
        catalog,
        requirements,
        RequirementView::RefExists(name, RefType::Branch),
    );
    lemma_listed_requirement(catalog, requirements, RequirementView::SnapshotExists(id));
    lemma_known_snapshot(before.snapshots@, id);
    lemma_catalog_ref(catalog.refs@, before.refs@, name);
    let found = choose|i: int|
        0 <= i < before.refs@.len() && (#[trigger] before.refs@[i]).name@ == name
            && before.refs@[i].ref_type@ == RefType::Branch.spec_text();
    let former = before.refs@[found];
    assert(before.refs@.contains(former));
    assert(mid.refs@.contains(former));
    let chain = lineage(
        Walk::Branch,
        catalog.snapshots@,
        Some(id),
        Seq::empty(),
        u64::MAX as int,
    )->Ok_0;
    let change = ChangeView::MoveRef(name, id, version);
    let more = operation_changes(catalog, earlier, operation, version)->Ok_0;
    assert(more =~= seq![change] + branch_changes(name, chain));
    let first = lemma_changes_split(
        mid,
        after,
        operations,
        seq![change],
        branch_changes(name, chain),
    );
    lemma_filled(first, after, operations, name, chain);
    lemma_single(mid, first, operations, change);
    let n = mid.refs@.len() as int;
    assert forall|i: int| 0 <= i < n implies replaced_ref(
        #[trigger] after.refs@[i],
        mid.refs@[i],
        name,
        id,
        version,
    ) by {
        assert(first.refs@[i] == after.refs@[i]);
    }
    assert forall|x: RefRecord| x.name@ != name implies (#[trigger] after.refs@.contains(x)
        <==> mid.refs@.contains(x)) by {
        if after.refs@.contains(x) {
            let i = choose|i: int| 0 <= i < n && after.refs@[i] == x;
            assert(replaced_ref(after.refs@[i], mid.refs@[i], name, id, version));
            assert(mid.refs@[i] == x);
        }
        if mid.refs@.contains(x) {
            let i = choose|i: int| 0 <= i < n && mid.refs@[i] == x;
            assert(replaced_ref(after.refs@[i], mid.refs@[i], name, id, version));
            assert(after.refs@[i] == x);
        }
    }
    assert(distinct_names(after.refs@)) by {
        assert forall|i: int, j: int| 0 <= i < j < after.refs@.len() implies (
        #[trigger] after.refs@[i]).name@ != (#[trigger] after.refs@[j]).name@ by {
            assert(replaced_ref(after.refs@[i], mid.refs@[i], name, id, version));
            assert(replaced_ref(after.refs@[j], mid.refs@[j], name, id, version));
            assert(mid.refs@[i].name@ != mid.refs@[j].name@);
        }
    }
    assert(only_ref(mid, after, name));
    assert forall|r: RefRecord| #[trigger] after.refs@.contains(r) && r.name@
        == name implies ref_holds(after, r, version as int) by {
        let i = choose|i: int| 0 <= i < n && after.refs@[i] == r;
        assert(replaced_ref(after.refs@[i], mid.refs@[i], name, id, version));
        lemma_same_name(mid.refs@, i, former);
        assert(ref_holds(mid, mid.refs@[i], version as int));
        lemma_branch_holds(catalog, first, after, name, r, version as int);
    }
    let at = choose|i: int| 0 <= i < n && mid.refs@[i] == former;
    assert(replaced_ref(after.refs@[at], mid.refs@[at], name, id, version));
    assert(after.refs@[at].name@ == name);
    assert forall|l: LiveRow| #[trigger] after.live@.contains(l) && l.ref_name@
        == name implies added(after.changes@, l.added_snapshot_id, l.file_id) by {
        assert(belongs(first, chain, shows(l)));
    }
    let main = choose|i: int| 0 <= i < n && is_main(#[trigger] mid.refs@[i]);
    if name == "main"@ {
        assert(replaced_ref(after.refs@[main], mid.refs@[main], name, id, version));
        assert(after.refs@.contains(after.refs@[main]));
        assert(is_main(after.refs@[main]));
    } else {
        lemma_main_elsewhere(before, mid, after, name, version as int);
    }
    lemma_ref_placed(before, mid, after, name, claimed, version as int);
}

proof fn lemma_refs_without(refs: Seq<RefRecord>, name: Seq<char>)
    requires
        distinct_names(refs),
    ensures
        forall|r: RefRecord| #[trigger]
            refs_without(refs, name).contains(r) <==> refs.contains(r) && r.name@ != name,
        distinct_names(refs_without(refs, name)),
    decreases refs.len(),
{
    if refs.len() > 0 {
        let front = refs.drop_last();
        let last = refs.last();
        assert(refs =~= front.push(last));
        assert forall|i: int, j: int| 0 <= i < j < front.len() implies (#[trigger] front[i]).name@
            != (#[trigger] front[j]).name@ by {
            assert(refs[i].name@ != refs[j].name@);
        }
        lemma_refs_without(front, name);
        let rest = refs_without(front, name);
        let kept = refs_without(refs, name);
        assert forall|r: RefRecord| #[trigger] kept.contains(r) <==> refs.contains(r) && r.name@
            != name by {
            lemma_push_contains(front, last, r);
            if last.name@ != name {
                lemma_push_contains(rest, last, r);
            }
        }
        if last.name@ != name {
            assert forall|i: int, j: int| 0 <= i < j < kept.len() implies (
            #[trigger] kept[i]).name@ != (#[trigger] kept[j]).name@ by {
                if j == rest.len() {
                    assert(rest.contains(rest[i]));
                    let k = choose|k: int| 0 <= k < front.len() && front[k] == rest[i];
                    assert(refs[k].name@ != refs[refs.len() - 1].name@);
                } else {
                    assert(rest[i].name@ != rest[j].name@);
                }
            }
        }
    }
}

proof fn lemma_dropped(
    catalog: Catalog,
    requirements: Seq<Requirement>,
    before: ImageRows,
    mid: ImageRows,
    after: ImageRows,
    operations: Seq<OperationRequest>,
    claimed: Seq<Seq<char>>,
    name: Seq<char>,
    version: i64,
)
    requires
        underway(catalog, requirements, before, mid, claimed, version),
        name != "main"@,
        changes_made(
            mid,
            after,
            operations,
            seq![ChangeView::ClearBranch(name), ChangeView::RemoveRef(name)],
        ),
    ensures
        sound(before, after, version as int),
        others_kept(before, after, claimed.push(name)),
        after.schemas == mid.schemas,
{
    let clear = ChangeView::ClearBranch(name);
    let remove = ChangeView::RemoveRef(name);
    assert(seq![clear, remove] =~= seq![clear] + seq![remove]);
    let first = lemma_changes_split(mid, after, operations, seq![clear], seq![remove]);
    lemma_single(mid, first, operations, clear);
    lemma_single(first, after, operations, remove);
    lemma_live_without(mid.live@, name);
    lemma_refs_without(mid.refs@, name);
    assert(only_ref(mid, after, name));
    lemma_main_elsewhere(before, mid, after, name, version as int);
    lemma_ref_placed(before, mid, after, name, claimed, version as int);
}

// -------------------------------------------------------- schemas, properties

proof fn lemma_schemas_changed(
    before: ImageRows,
    mid: ImageRows,
    after: ImageRows,
    claimed: Seq<Seq<char>>,
    version: int,
)
    requires
        sound(before, mid, version),
        others_kept(before, mid, claimed),
        after == (ImageRows { schemas: after.schemas, meta: after.meta, ..mid }),
        after.meta == (MetaRow { current_schema_id: after.meta.current_schema_id, ..mid.meta }),
        before.schemas@.len() <= after.schemas@.len(),
        after.schemas@.take(before.schemas@.len() as int) == before.schemas@,
        forall|i: int|
            0 <= i < after.schemas@.len() ==> schema_check(#[trigger] after.schemas@[i]) is Ok,
        has_schema(after.schemas@, after.meta.current_schema_id),
    ensures
        sound(before, after, version),
        others_kept(before, after, claimed),
{
    assert forall|i: int| 0 <= i < after.refs@.len() implies ref_holds(
        after,
        #[trigger] after.refs@[i],
        version,
    ) by {
        assert(ref_holds(mid, mid.refs@[i], version));
        lemma_same_check(after, mid, mid.refs@[i]);
    }
    let main = choose|i: int| 0 <= i < mid.refs@.len() && is_main(#[trigger] mid.refs@[i]);
    assert(is_main(after.refs@[main]));
    assert(live_is_backed(after)) by {
        assert forall|i: int| 0 <= i < after.live@.len() implies has_file(
            after.files@,
            (#[trigger] after.live@[i]).file_id,
        ) && added(after.changes@, after.live@[i].added_snapshot_id, after.live@[i].file_id) by {
            assert(has_file(mid.files@, mid.live@[i].file_id));
        }
    }
    assert(keyed(after));
}

proof fn lemma_schema_added(
    before: ImageRows,
    mid: ImageRows,
    after: ImageRows,
    operations: Seq<OperationRequest>,
    claimed: Seq<Seq<char>>,
    at: int,
    version: i64,
)
    requires
        sound(before, mid, version as int),
        others_kept(before, mid, claimed),
        plain_schemas(operations),
        0 <= at < operations.len(),
        operations[at] is AddSchema,
        changes_made(
            mid,
            after,
            operations,
            seq![
                ChangeView::InsertSchema(at, operations[at]->AddSchema_schema.schema_id, version),
            ],
        ),
    ensures
        sound(before, after, version as int),
        others_kept(before, after, claimed),
        after.schemas@.len() == mid.schemas@.len() + 1,
        after.schemas@.drop_last() == mid.schemas@,
        after.schemas@.last().schema_id == operations[at]->AddSchema_schema.schema_id,
{
    let schema = operations[at]->AddSchema_schema;
    lemma_single(
        mid,
        after,
        operations,
        ChangeView::InsertSchema(at, schema.schema_id, version),
    );
    let record = after.schemas@.last();
    let n = mid.schemas@.len() as int;
    assert(after.schemas@ =~= mid.schemas@.push(record));
    lemma_stored_schema_is_valid(record.fields@, fields_view(schema.fields@));
    assert(schema_check(record) is Ok);
    assert forall|i: int| 0 <= i < after.schemas@.len() implies schema_check(
        #[trigger] after.schemas@[i],
    ) is Ok by {
        if i < n {
            assert(after.schemas@[i] == mid.schemas@[i]);
        }
    }
    let old_count = before.schemas@.len() as int;
    assert(after.schemas@.take(old_count) =~= before.schemas@) by {
        assert(after.schemas@.take(old_count) =~= mid.schemas@.take(old_count));
    }
    lemma_schema_pushed(mid.schemas@, record, mid.meta.current_schema_id);
    lemma_schemas_changed(before, mid, after, claimed, version as int);
}

proof fn lemma_schema_pushed(schemas: Seq<SchemaRecord>, last: SchemaRecord, id: i64)
    ensures
        has_schema(schemas, id) ==> has_schema(schemas.push(last), id),
        has_schema(schemas.push(last), last.schema_id),
{
    if has_schema(schemas, id) {
        let i = choose|i: int| 0 <= i < schemas.len() && (#[trigger] schemas[i]).schema_id == id;
        assert(schemas.push(last)[i] == schemas[i]);
    }
    assert(schemas.push(last)[schemas.len() as int] == last);
}

proof fn lemma_properties(
    before: ImageRows,
    after: ImageRows,
    operations: Seq<OperationRequest>,
    changes: Seq<ChangeView>,
)
    requires
        changes_made(before, after, operations, changes),
        forall|i: int|
            0 <= i < changes.len() ==> (#[trigger] changes[i] is PutProperty || changes[i]
                is RemoveProperty),
    ensures
        after == before,
    decreases changes.len(),
{
    if changes.len() > 0 {
        let mid = choose|mid: ImageRows|
            changes_made(before, mid, operations, changes.drop_last()) && #[trigger] change_made(
                mid,
                after,
                operations,
                changes.last(),
            );
        assert(changes[changes.len() - 1] is PutProperty || changes[changes.len() - 1]
            is RemoveProperty);
        assert forall|i: int| 0 <= i < changes.drop_last().len() implies (
        #[trigger] changes.drop_last()[i] is PutProperty || changes.drop_last()[i]
            is RemoveProperty) by {
            assert(changes.drop_last()[i] == changes[i]);
        }
        lemma_properties(before, mid, operations, changes.drop_last());
    }
}

// ------------------------------------------------------------- all operations

/// The schemas that the first operations add are stored.
spec fn added_known(rows: ImageRows, operations: Seq<OperationRequest>, n: int) -> bool {
    forall|i: int|
        0 <= i < n ==> (#[trigger] operations[i] matches OperationRequest::AddSchema { schema, .. }
            ==> has_schema(rows.schemas@, schema.schema_id as i64))
}

proof fn lemma_operation(
    catalog: Catalog,
    requirements: Seq<Requirement>,
    problem: Option<ProtocolError>,
    before: ImageRows,
    mid: ImageRows,
    after: ImageRows,
    operations: Seq<OperationRequest>,
    n: int,
    version: i64,
)
    requires
        0 < n <= operations.len(),
        plain_schemas(operations),
        progress(catalog, requirements, problem, operations.take(n)) is Ok,
        underway(
            catalog,
            requirements,
            before,
            mid,
            progress(catalog, requirements, problem, operations.take(n - 1))->Ok_0.refs,
            version,
        ),
        added_known(mid, operations, n - 1),
        operation_changes(catalog, operations.take(n - 1), operations[n - 1], version) is Ok,
        changes_made(
            mid,
            after,
            operations,
            operation_changes(
                catalog,
                operations.take(n - 1),
                operations[n - 1],
                version,
            )->Ok_0,
        ),
    ensures
        sound(before, after, version as int),
        others_kept(
            before,
            after,
            progress(catalog, requirements, problem, operations.take(n))->Ok_0.refs,
        ),
        added_known(after, operations, n),
{
    let now = operations.take(n);
    let earlier = operations.take(n - 1);
    assert(now.drop_last() =~= earlier);
    assert(now.last() == operations[n - 1]);
    let operation = operations[n - 1];
    let start = progress(catalog, requirements, problem, earlier)->Ok_0;
    let claimed = start.refs;
    let more = operation_changes(catalog, earlier, operation, version)->Ok_0;
    match operation {
        OperationRequest::SetProperties { updates, removals, .. } => {
            assert forall|i: int| 0 <= i < more.len() implies (#[trigger] more[i] is PutProperty
                || more[i] is RemoveProperty) by {
                if i < updates@.len() {
                    assert(more[i] == put_changes(updates@, version)[i]);
                } else {
                    assert(more[i] == remove_changes(removals@)[i - updates@.len()]);
                }
            }
            lemma_properties(mid, after, operations, more);
        },
        OperationRequest::CreateRef { .. } => {
            lemma_created(
                catalog,
                requirements,
                before,
                mid,
                after,
                operations,
                claimed,
                earlier,
                operation,
                version,
            );
        },
        OperationRequest::ReplaceRef { .. } => {
            lemma_replaced(
                catalog,
                requirements,
                before,
                mid,
                after,
                operations,
                claimed,
                earlier,
                operation,
                version,
            );
        },
        OperationRequest::DropRef { name, .. } => {
            assert(more =~= seq![ChangeView::ClearBranch(name@), ChangeView::RemoveRef(name@)]);
            lemma_dropped(
                catalog,
                requirements,
                before,
                mid,
                after,
                operations,
                claimed,
                name@,
                version,
            );
        },
        OperationRequest::AddSchema { schema, .. } => {
            lemma_schema_added(before, mid, after, operations, claimed, n - 1, version);
            assert(after.schemas@ =~= mid.schemas@.push(after.schemas@.last()));
            assert forall|i: int| 0 <= i < n implies (#[trigger] operations[i]
                matches OperationRequest::AddSchema { schema, .. } ==> has_schema(
                after.schemas@,
                schema.schema_id as i64,
            )) by {
                if let OperationRequest::AddSchema { schema: other, .. } = operations[i] {
                    lemma_schema_pushed(
                        mid.schemas@,
                        after.schemas@.last(),
                        other.schema_id as i64,
                    );
                }
            }
        },
        OperationRequest::SetCurrentSchema { schema_id, .. } => {
            let change = ChangeView::SetCurrentSchema(schema_id);
            lemma_single(mid, after, operations, change);
            let id = schema_id as i64;
            assert(has_schema(mid.schemas@, id)) by {
                if catalog.schema_ids@.contains(schema_id) {
                    let i = choose|i: int|
                        0 <= i < before.schemas@.len() && (
                        #[trigger] before.schemas@[i]).schema_id == id;
                    assert(mid.schemas@.take(before.schemas@.len() as int)[i] == mid.schemas@[i]);
                    assert(mid.schemas@[i].schema_id == id);
                } else {
                    let i = choose|i: int|
                        0 <= i < earlier.len() && (#[trigger] earlier[i]
                            matches OperationRequest::AddSchema { schema, .. } && schema.schema_id
                            == schema_id);
                    assert(operations[i] == earlier[i]);
                }
            }
            lemma_schemas_changed(before, mid, after, claimed, version as int);
        },
    }
}

proof fn lemma_operations(
    catalog: Catalog,
    requirements: Seq<Requirement>,
    problem: Option<ProtocolError>,
    before: ImageRows,
    after: ImageRows,
    operations: Seq<OperationRequest>,
    n: int,
    version: i64,
)
    requires
        0 <= n <= operations.len(),
        plain_schemas(operations),
        underway(catalog, requirements, before, before, Seq::empty(), version),
        progress(catalog, requirements, problem, operations.take(n)) is Ok,
        planned(catalog, operations.take(n), version) is Ok,
        changes_made(
            before,
            after,
            operations,
            planned(catalog, operations.take(n), version)->Ok_0,
        ),
    ensures
        sound(before, after, version as int),
        others_kept(
            before,
            after,
            progress(catalog, requirements, problem, operations.take(n))->Ok_0.refs,
        ),
        added_known(after, operations, n),
    decreases n,
{
    if n > 0 {
        let now = operations.take(n);
        let earlier = operations.take(n - 1);
        assert(now.drop_last() =~= earlier);
        let a = planned(catalog, earlier, version)->Ok_0;
        let b = operation_changes(catalog, earlier, operations[n - 1], version)->Ok_0;
        let mid = lemma_changes_split(before, after, operations, a, b);
        lemma_operations(
            catalog,
            requirements,
            problem,
            before,
            mid,
            operations,
            n - 1,
            version,
        );
        lemma_operation(
            catalog,
            requirements,
            problem,
            before,
            mid,
            after,
            operations,
            n,
            version,
        );
    }
}

// ----------------------------------------------------------------- the commit

proof fn lemma_schemas_checked(schemas: Seq<SchemaRecord>)
    ensures
        schemas_check(schemas) is Ok <==> forall|i: int|
            0 <= i < schemas.len() ==> schema_check(#[trigger] schemas[i]) is Ok,
    decreases schemas.len(),
{
    if schemas.len() > 0 {
        let rest = schemas.skip(1);
        lemma_schemas_checked(rest);
        if schemas_check(schemas) is Ok {
            assert forall|i: int| 0 <= i < schemas.len() implies schema_check(
                #[trigger] schemas[i],
            ) is Ok by {
                if i > 0 {
                    assert(rest[i - 1] == schemas[i]);
                }
            }
        }
        if forall|i: int| 0 <= i < schemas.len() ==> schema_check(#[trigger] schemas[i]) is Ok {
            assert(schema_check(schemas[0]) is Ok);
            assert forall|i: int| 0 <= i < rest.len() implies schema_check(
                #[trigger] rest[i],
            ) is Ok by {
                assert(rest[i] == schemas[i + 1]);
            }
        }
    }
}

proof fn lemma_kind_kept(a: Seq<SchemaRecord>, b: Seq<SchemaRecord>, schema: i64, field: i64)
    requires
        a.len() <= b.len(),
        b.take(a.len() as int) == a,
        stored_kind(a, schema, field) is Some,
    ensures
        stored_kind(b, schema, field) == stored_kind(a, schema, field),
    decreases a.len(),
{
    if a.len() > 0 {
        assert(b.take(a.len() as int)[0] == b[0]);
        if a[0].schema_id != schema {
            assert(b.skip(1).take(a.skip(1).len() as int) =~= a.skip(1)) by {
                assert forall|i: int| 0 <= i < a.len() - 1 implies b.skip(1)[i] == a.skip(
                    1,
                )[i] by {
                    assert(b.take(a.len() as int)[i + 1] == b[i + 1]);
                }
            }
            lemma_kind_kept(a.skip(1), b.skip(1), schema, field);
        }
    }
}

proof fn lemma_descriptors_kept(before: ImageRows, after: ImageRows)
    requires
        facts_complete(before),
        after.files == before.files,
        after.partitions == before.partitions,
        after.metrics == before.metrics,
        after.bounds == before.bounds,
        before.schemas@.len() <= after.schemas@.len(),
        after.schemas@.take(before.schemas@.len() as int) == before.schemas@,
        descriptors_check(before) is Ok,
    ensures
        descriptors_check(after) is Ok,
{
    lemma_metrics_checked(before, before.metrics@, before.bounds@);
    assert forall|i: int| 0 <= i < after.metrics@.len() implies stored_metric_check(
        after,
        #[trigger] after.metrics@[i],
        after.bounds@[i],
    ) is Ok by {
        let metric = before.metrics@[i];
        assert(stored_metric_check(before, metric, before.bounds@[i]) is Ok);
        if let Some(schema) = crate::image::file_schema(before.files@, metric.file_id) {
            lemma_kind_kept(before.schemas@, after.schemas@, schema, metric.field_id);
        }
    }
    lemma_metrics_checked(after, after.metrics@, after.bounds@);
}

proof fn lemma_sound_start(before: ImageRows, expected: ExpectedImage, version: int)
    requires
        image_check(before, expected) is Ok,
        keyed(before),
        expected.table_version <= version,
    ensures
        sound(before, before, version),
{
    assert(history_check(before, expected.table_version, before.meta.last_sequence_number) is Ok);
    lemma_refs_checked(before, before.refs@);
    lemma_schemas_checked(before.schemas@);
    assert(before.schemas@.take(before.schemas@.len() as int) =~= before.schemas@);
    assert forall|i: int| 0 <= i < before.refs@.len() implies ref_holds(
        before,
        #[trigger] before.refs@[i],
        version,
    ) by {
        assert(ref_in_shape(before.refs@[i], expected.table_version as int));
        assert(ref_check(before, before.refs@[i]) is Ok);
    }
}

proof fn lemma_commit_rows(
    changed: ImageRows,
    after: ImageRows,
    commit: ReplayedCommit,
    expected: ExpectedImage,
    next: ExpectedImage,
)
    requires
        committed_rows(changed, after, commit),
        next_committed(next, expected, changed, commit),
        commit.table_version == expected.table_version + 1,
        commit.table_version < i64::MAX,
        forall|i: int|
            0 <= i < changed.intents@.len() ==> (#[trigger] changed.intents@[i]).table_version
                != commit.table_version,
        paired(changed),
        contiguous(changed.commits@, expected.table_version),
    ensures
        last_commits(after.commits@, next) == 1,
        paired(after),
        contiguous(after.commits@, next.table_version),
        state_at(after.commits@, expected.table_version as int) == next.previous_semantic_state,
{
    let n = changed.commits@.len() as int;
    let last = after.commits@.last();
    assert(after.commits@ =~= changed.commits@.push(last));
    assert forall|i: int| 0 <= i < n implies (#[trigger] changed.commits@[i]).table_version
        != next.table_version by {}
    lemma_no_last_commit(changed.commits@, next);
    assert forall|i: int| 0 <= i < after.commits@.len() implies (
    #[trigger] after.commits@[i]).intent_count == intents_of(after.intents@, after.commits@[i]) by {
        let row = after.commits@[i];
        if i < n {
            assert(row == changed.commits@[i]);
            assert(changed.commits@[i].intent_count == intents_of(changed.intents@, row));
        } else {
            assert(row == last);
            lemma_no_intents(changed.intents@, row);
        }
    }
    assert forall|i: int| 0 <= i < after.commits@.len() implies 0 <= (
    #[trigger] after.commits@[i]).table_version <= next.table_version by {
        if i < n {
            assert(after.commits@[i] == changed.commits@[i]);
        }
    }
    let first = choose|i: int|
        0 <= i < n && (#[trigger] changed.commits@[i]).table_version == 0;
    assert(after.commits@[first] == changed.commits@[first]);
    assert(after.commits@[n] == last);
    lemma_state_kept(changed.commits@, last, expected.table_version as int);
}

proof fn lemma_committed(
    before: ImageRows,
    changed: ImageRows,
    after: ImageRows,
    commit: ReplayedCommit,
    expected: ExpectedImage,
    next: ExpectedImage,
)
    requires
        facts_complete(before),
        image_check(before, expected) is Ok,
        sound(before, changed, commit.table_version as int),
        committed_rows(changed, after, commit),
        next_committed(next, expected, before, commit),
        commit.table_version == expected.table_version + 1,
        commit.table_version < i64::MAX,
        forall|i: int|
            0 <= i < before.intents@.len() ==> (#[trigger] before.intents@[i]).table_version
                != commit.table_version,
    ensures
        image_check(after, next) is Ok,
        keyed(after),
        facts_complete(after),
{
    let version = commit.table_version as int;
    assert(meta_matches(before.meta, expected));
    lemma_commit_rows(changed, after, commit, expected, next);
    assert(history_check(before, expected.table_version, before.meta.last_sequence_number) is Ok);
    assert(history_holds(after, version, after.meta.last_sequence_number)) by {
        assert forall|i: int| 0 <= i < after.snapshots@.len() implies snapshot_in_range(
            #[trigger] after.snapshots@[i],
            version,
        ) by {
            assert(snapshot_in_range(before.snapshots@[i], expected.table_version as int));
        }
        assert forall|i: int| 0 <= i < after.refs@.len() implies ref_in_shape(
            #[trigger] after.refs@[i],
            version,
        ) by {
            assert(ref_holds(changed, changed.refs@[i], version));
        }
        let main = choose|i: int|
            0 <= i < changed.refs@.len() && is_main(#[trigger] changed.refs@[i]);
        assert(is_main(after.refs@[main]));
    }
    assert(history_check(after, next.table_version, after.meta.last_sequence_number) is Ok);
    assert(refs_resolve(after)) by {
        assert forall|i: int| 0 <= i < after.refs@.len() implies ((
        #[trigger] after.refs@[i]).snapshot_id matches Some(id) ==> has_snapshot(
            after.snapshots@,
            id,
        )) by {
            assert(ref_holds(changed, changed.refs@[i], version));
        }
    }
    assert(live_is_backed(after)) by {
        assert forall|i: int| 0 <= i < after.live@.len() implies has_file(
            after.files@,
            (#[trigger] after.live@[i]).file_id,
        ) && added(after.changes@, after.live@[i].added_snapshot_id, after.live@[i].file_id) by {
            assert(has_file(changed.files@, changed.live@[i].file_id));
        }
    }
    assert forall|i: int| 0 <= i < after.refs@.len() implies ref_check(
        after,
        #[trigger] after.refs@[i],
    ) is Ok by {
        assert(ref_holds(changed, changed.refs@[i], version));
        lemma_same_check(after, changed, changed.refs@[i]);
    }
    lemma_refs_checked(after, after.refs@);
    lemma_schemas_checked(after.schemas@);
    lemma_descriptors_kept(before, after);
    assert(meta_matches(after.meta, next));
}

/// A transaction that a valid image accepts gives an image that is valid for the
/// head that publishes it: every branch holds the files of its snapshot and of
/// all before it, every ref and the current schema exist, and every schema is
/// sound. Schemas that are added have no mapping among their fields.
pub proof fn lemma_transaction_keeps_the_image_valid(
    before: ImageRows,
    changed: ImageRows,
    after: ImageRows,
    catalog: Catalog,
    request: TransactionRequest,
    shown: Seq<Seq<char>>,
    problem: Option<ProtocolError>,
    commit: ReplayedCommit,
    expected: ExpectedImage,
    next: ExpectedImage,
)
    requires
        facts_complete(before),
        image_check(before, expected) is Ok,
        keyed(before),
        catalog_of(catalog, before),
        prepared(catalog, request, shown, problem) is Ok,
        plain_schemas(request.operations@),
        commit.table_version == expected.table_version + 1,
        commit.table_version < i64::MAX,
        forall|i: int|
            0 <= i < before.intents@.len() ==> (#[trigger] before.intents@[i]).table_version
                != commit.table_version,
        planned(catalog, request.operations@, commit.table_version as i64) is Ok,
        changes_made(
            before,
            changed,
            request.operations@,
            planned(catalog, request.operations@, commit.table_version as i64)->Ok_0,
        ),
        committed_rows(changed, after, commit),
        next_committed(next, expected, before, commit),
    ensures
        image_check(after, next) is Ok,
        keyed(after),
        facts_complete(after),
{
    let version = commit.table_version as i64;
    let operations = request.operations@;
    let n = operations.len() as int;
    lemma_sound_start(before, expected, version as int);
    assert(operations.take(n) =~= operations);
    assert(others_kept(before, before, Seq::empty()));
    lemma_evaluation(catalog, request.requirements@, shown);
    lemma_operations(
        catalog,
        request.requirements@,
        problem,
        before,
        changed,
        operations,
        n,
        version,
    );
    lemma_committed(before, changed, after, commit, expected, next);
}

/// A commit that changes no row of its own, as one that only sets properties,
/// keeps a valid image valid.
pub proof fn lemma_commit_keeps_the_image_valid(
    before: ImageRows,
    after: ImageRows,
    commit: ReplayedCommit,
    expected: ExpectedImage,
    next: ExpectedImage,
)
    requires
        facts_complete(before),
        image_check(before, expected) is Ok,
        keyed(before),
        commit.table_version == expected.table_version + 1,
        commit.table_version < i64::MAX,
        forall|i: int|
            0 <= i < before.intents@.len() ==> (#[trigger] before.intents@[i]).table_version
                != commit.table_version,
        committed_rows(before, after, commit),
        next_committed(next, expected, before, commit),
    ensures
        image_check(after, next) is Ok,
{
    lemma_sound_start(before, expected, commit.table_version as int);
    lemma_committed(before, before, after, commit, expected, next);
}

/// What a commit stored under its key is found again, and what was stored under
/// other keys stays.
pub proof fn lemma_commit_is_remembered(
    before: ImageRows,
    after: ImageRows,
    commit: ReplayedCommit,
    key: Seq<char>,
)
    requires
        committed_rows(before, after, commit),
        forall|i: int|
            0 <= i < before.intents@.len() ==> (#[trigger] before.intents@[i]).key@
                != commit.idempotency_key@,
    ensures
        key == commit.idempotency_key@ ==> (intent_row(after.intents@, key) matches Some(row)
            && row.intent == commit.intent_hash && row.commit_id == commit.commit_id
            && row.result_json@ == commit.result_json@),
        key != commit.idempotency_key@ ==> intent_row(after.intents@, key) == intent_row(
            before.intents@,
            key,
        ),
{
    let last = after.intents@.last();
    assert(after.intents@ =~= before.intents@.push(last));
    if key == commit.idempotency_key@ {
        lemma_intent_row(before.intents@, last);
    } else {
        lemma_intent_kept(before.intents@, last, key);
    }
}

/// A commit that is asked for a second time changes nothing: the first pin finds
/// it, and the publication ends there with the result that was stored.
pub proof fn lemma_repeated_commit_changes_nothing(
    before: ImageRows,
    after: ImageRows,
    commit: ReplayedCommit,
    publication: Publication,
    unchanged: bool,
)
    requires
        committed_rows(before, after, commit),
        forall|i: int|
            0 <= i < before.intents@.len() ==> (#[trigger] before.intents@[i]).key@
                != commit.idempotency_key@,
        publication.phase is Parent,
    ensures
        ({
            let facts = PinFacts {
                same_table: true,
                replay: replay_of(
                    stored_intent(after, commit.idempotency_key@),
                    commit.intent_hash,
                ),
                unchanged,
            };
            publication.next(EventView::Pinned(facts)) == (
                publication.finished(),
                ActionView::Replayed,
            )
        }),
        intent_row(after.intents@, commit.idempotency_key@) matches Some(row) && row.result_json@
            == commit.result_json@,
{
    lemma_commit_is_remembered(before, after, commit, commit.idempotency_key@);
}

/// What a metadata commit says of itself and of the commit before it.
pub open spec fn metadata_facts(
    facts: CommitFacts,
    before: ImageRows,
    commit: ReplayedCommit,
) -> bool {
    &&& facts.table_version == commit.table_version
    &&& facts.commit_id == commit.commit_id
    &&& facts.created_at_ms == commit.created_at_ms
    &&& facts.operations_json@ == commit.operation_json@
    &&& facts.metadata_json@ == commit.metadata_json@
    &&& facts.intents@.len() == 1
    &&& facts.intents@[0].key@ == commit.idempotency_key@
    &&& facts.intents@[0].intent_sha256 == commit.intent_hash
    &&& facts.intents@[0].result_json@ == commit.result_json@
    &&& facts.snapshots@.len() == 0
    &&& facts.parent matches Some(parent) && {
        &&& parent.table_version == commit.table_version - 1
        &&& parent.is_commit
        &&& commit_at(before.commits@, parent.table_version) matches Some(row) && row.uri@
            == parent.uri@ && row.sha256 == parent.sha256
    }
}

/// The rows after a metadata commit, on an image that knows nothing of it yet, say
/// exactly what the commit says.
pub proof fn lemma_commit_projects_itself(
    before: ImageRows,
    after: ImageRows,
    commit: ReplayedCommit,
    facts: CommitFacts,
)
    requires
        committed_rows(before, after, commit),
        commit.table_version <= i64::MAX,
        metadata_facts(facts, before, commit),
        forall|i: int|
            0 <= i < before.commits@.len() ==> (#[trigger] before.commits@[i]).table_version
                != commit.table_version,
        forall|i: int|
            0 <= i < before.snapshots@.len() ==> (
            #[trigger] before.snapshots@[i]).committed_table_version != commit.table_version,
        forall|i: int|
            0 <= i < before.intents@.len() ==> (#[trigger] before.intents@[i]).key@
                != commit.idempotency_key@,
    ensures
        commit_projection(after, facts, Ok(())) is Ok,
{
    let row = after.commits@.last();
    assert(after.commits@ =~= before.commits@.push(row));
    lemma_commit_row(
        before.commits@,
        row,
        facts.table_version,
        facts.parent->Some_0.table_version,
    );
    lemma_no_snapshots(before.snapshots@, facts.table_version);
    assert(snapshot_projection(after, facts) is Ok);
    let intent = after.intents@.last();
    assert(after.intents@ =~= before.intents@.push(intent));
    lemma_intent_row(before.intents@, intent);
    assert(intent_check(after, facts, facts.intents@[0]) is Ok);
    assert(facts.intents@.skip(1).len() == 0);
    assert(intents_check(after, facts, facts.intents@.skip(1)) is Ok);
    assert(intents_check(after, facts, facts.intents@) is Ok);
    assert(parent_check(after, facts) is Ok);
}

// ---------------------------------------------------------------------- keys

/// The keys of a new table hold.
pub proof fn lemma_genesis_is_keyed(rows: ImageRows, input: GenesisImage, schema: Schema)
    requires
        genesis_rows(rows, input, schema),
    ensures
        keyed(rows),
{
}

/// The keys still hold after an append to a ref that exists.
pub proof fn lemma_append_keeps_keys(before: ImageRows, after: ImageRows, input: AppendImage)
    requires
        keyed(before),
        appended(after, before, input),
        ref_record(before.refs@, input.target_ref@) is Some,
    ensures
        keyed(after),
{
    lemma_rows_grow(after, before, input);
    assert forall|i: int| 0 <= i < before.refs@.len() implies (#[trigger] after.refs@[i]).name@
        == before.refs@[i].name@ by {
        assert(moved_ref(after.refs@[i], before.refs@[i], input));
    }
    assert forall|i: int, j: int| 0 <= i < j < after.refs@.len() implies (
    #[trigger] after.refs@[i]).name@ != (#[trigger] after.refs@[j]).name@ by {
        assert(before.refs@[i].name@ != before.refs@[j].name@);
    }
    assert forall|name: Seq<char>| has_ref(before.refs@, name) implies #[trigger] has_ref(
        after.refs@,
        name,
    ) by {
        let i = choose|i: int|
            0 <= i < before.refs@.len() && (#[trigger] before.refs@[i]).name@ == name;
        assert(after.refs@[i].name@ == name);
    }
    lemma_ref_named(before.refs@, input.target_ref@);
    let found = ref_record(before.refs@, input.target_ref@)->0;
    let t = choose|i: int| 0 <= i < before.refs@.len() && #[trigger] before.refs@[i] == found;
    assert(before.refs@[t].name@ == input.target_ref@);
    let live = before.live@.len() as int;
    assert forall|i: int| 0 <= i < after.live@.len() implies has_ref(
        after.refs@,
        (#[trigger] after.live@[i]).ref_name@,
    ) by {
        if i < live {
            assert(after.live@[i] == before.live@[i]);
            assert(has_ref(before.refs@, before.live@[i].ref_name@));
        } else {
            assert(live_row_from(after.live@[i], input.files@[i - live], input));
        }
    }
    let changes = before.changes@.len() as int;
    let files = before.files@.len() as int;
    assert forall|i: int| 0 <= i < after.changes@.len() implies has_file(
        after.files@,
        (#[trigger] after.changes@[i]).file_id,
    ) by {
        if i < changes {
            assert(after.changes@[i] == before.changes@[i]);
            let id = before.changes@[i].file_id;
            assert(has_file(before.files@, before.changes@[i].file_id));
            let k = choose|k: int|
                0 <= k < before.files@.len() && (#[trigger] before.files@[k]).file_id == id;
            assert(after.files@[k] == before.files@[k]);
        } else {
            let k = i - changes;
            assert(change_row_from(after.changes@[i], input.files@[k], input));
            assert(file_row_from(
                after.files@[files + k],
                input.files@[files + k - files],
                input,
            ));
        }
    }
}

} // verus!

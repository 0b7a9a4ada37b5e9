//! Which snapshot a selection gives, and which files a listing shows, said of the
//! rows themselves.
use crate::bytes::be_value;
use crate::catalog::{ref_of, RefRow, RefType, Walk};
use crate::error::{ErrorView, RuntimeError};
use crate::hash::Id;
use crate::history::{
    added_along, added_by, branch_files, branches_named, file_of, files_view, in_listing_order, live_on,
    record_of,
    resolve_snapshot, rows_of, shown_file, shown_files, snapshot_files, with_sequence, LiveFile,
    LiveFileView, SnapshotDescriptor, SnapshotSelection, TextCodec,
};
use crate::laws::lineages::{is_row_of, leads_back, least_of, lemma_walk_finds_the_lineage};
use crate::tables::{ChangeRow, FileRecord, LiveRow, SnapshotRecord};
use crate::value::CanonicalValue;
use vstd::prelude::*;

verus! {

/// The record of a snapshot: the first with its identifier.
pub open spec fn is_record_of(records: Seq<SnapshotRecord>, i: int, id: Id) -> bool {
    &&& 0 <= i < records.len()
    &&& records[i].row.snapshot_id == id
    &&& forall|j: int| 0 <= j < i ==> (#[trigger] records[j]).row.snapshot_id != id
}

/// The numbers of a record are in their range.
pub open spec fn sound_numbers(record: SnapshotRecord) -> bool {
    &&& 0 <= record.schema_id <= 0xffff_ffff
    &&& 0 <= record.partition_spec_id <= 0xffff_ffff
    &&& 0 <= record.sort_order_id <= 0xffff_ffff
    &&& record.row.sequence_number >= 0
    &&& record.committed_table_version >= 0
}

/// The codec never refuses the text.
pub open spec fn never_refused<C: TextCodec>(codec: C, text: String) -> bool {
    forall|e: RuntimeError|
        !#[trigger] call_ensures(
            C::parse,
            (&codec, &text),
            Err::<CanonicalValue, RuntimeError>(e),
        )
}

/// A record that can be described.
pub open spec fn describable<C: TextCodec>(codec: C, record: SnapshotRecord) -> bool {
    &&& sound_numbers(record)
    &&& never_refused(codec, record.summary_json)
    &&& never_refused(codec, record.metadata_json)
}

/// The descriptor says what the record says.
pub open spec fn tells<C: TextCodec>(
    codec: C,
    d: SnapshotDescriptor,
    record: SnapshotRecord,
) -> bool {
    &&& d.snapshot_id == record.row.snapshot_id
    &&& d.parent_snapshot_id == record.row.parent_snapshot_id
    &&& d.sequence_number == record.row.sequence_number
    &&& d.committed_table_version == record.committed_table_version
    &&& d.schema_id == record.schema_id
    &&& d.partition_spec_id == record.partition_spec_id
    &&& d.sort_order_id == record.sort_order_id
    &&& d.operation@ == record.operation@
    &&& d.committed_at_ms == record.committed_at_ms
    &&& call_ensures(
        C::parse,
        (&codec, &record.summary_json),
        Ok::<CanonicalValue, RuntimeError>(d.summary),
    )
    &&& call_ensures(
        C::parse,
        (&codec, &record.metadata_json),
        Ok::<CanonicalValue, RuntimeError>(d.metadata),
    )
}

/// The answer for one identifier: what the record of the snapshot says, given
/// wherever it can be described; and that there is no such snapshot exactly where
/// no record has the identifier.
pub open spec fn answers<C: TextCodec>(
    codec: C,
    records: Seq<SnapshotRecord>,
    id: Id,
    r: Result<Option<SnapshotDescriptor>, RuntimeError>,
) -> bool {
    &&& (forall|i: int| 0 <= i < records.len() ==> (#[trigger] records[i]).row.snapshot_id != id)
        ==> (r matches Err(e) && e@ == ErrorView::SnapshotNotFound)
    &&& forall|i: int| #[trigger]
        is_record_of(records, i, id) ==> {
            &&& r matches Ok(found) ==> (found matches Some(d) && tells(codec, d, records[i]))
            &&& describable(codec, records[i]) ==> r is Ok
            &&& !sound_numbers(records[i]) ==> (r matches Err(e) && (e@ is Sqlite || e@
                is Corrupt))
        }
}

pub proof fn lemma_record(records: Seq<SnapshotRecord>, id: Id) -> (i: int)
    ensures
        match record_of(records, id) {
            Some(record) => is_record_of(records, i, id) && records[i] == record,
            None => forall|j: int|
                0 <= j < records.len() ==> (#[trigger] records[j]).row.snapshot_id != id,
        },
    decreases records.len(),
{
    if records.len() == 0 || records[0].row.snapshot_id == id {
        0
    } else {
        let rest = records.skip(1);
        let i = lemma_record(rest, id);
        if record_of(rest, id) is None {
            assert forall|j: int| 0 <= j < records.len() implies (
            #[trigger] records[j]).row.snapshot_id != id by {
                if j > 0 {
                    assert(rest[j - 1] == records[j]);
                }
            }
        } else {
            assert(rest[i] == records[i + 1]);
            assert forall|j: int| 0 <= j < i + 1 implies (#[trigger] records[j]).row.snapshot_id
                != id by {
                if j > 0 {
                    assert(rest[j - 1] == records[j]);
                }
            }
        }
        i + 1
    }
}

proof fn lemma_records_agree(records: Seq<SnapshotRecord>, i: int, id: Id)
    requires
        is_record_of(records, i, id),
    ensures
        record_of(records, id) == Some(records[i]),
{
    let k = lemma_record(records, id);
    if record_of(records, id) is None {
        assert(records[i].row.snapshot_id != id);
    } else if k < i {
        assert(records[k].row.snapshot_id != id);
    } else if i < k {
        assert(records[i].row.snapshot_id != id);
    }
}

/// A selection by identifier gives the snapshot with that identifier.
pub proof fn lemma_selected_by_identifier<C: TextCodec>(
    codec: C,
    refs: Vec<RefRow>,
    records: Vec<SnapshotRecord>,
    id: Id,
    r: Result<Option<SnapshotDescriptor>, RuntimeError>,
)
    requires
        call_ensures(
            resolve_snapshot::<C>,
            (&codec, &refs, &records, &SnapshotSelection::SnapshotId(id)),
            r,
        ),
    ensures
        answers(codec, records@, id, r),
{
    let k = lemma_record(records@, id);
    assert forall|i: int| #[trigger] is_record_of(records@, i, id) implies {
        &&& r matches Ok(found) ==> (found matches Some(d) && tells(codec, d, records@[i]))
        &&& describable(codec, records@[i]) ==> r is Ok
        &&& !sound_numbers(records@[i]) ==> (r matches Err(e) && (e@ is Sqlite || e@ is Corrupt))
    } by {
        lemma_records_agree(records@, i, id);
    }
}

proof fn lemma_ref(refs: Seq<RefRow>, name: Seq<char>) -> (i: int)
    ensures
        match ref_of(refs, name) {
            Some(found) => {
                &&& 0 <= i < refs.len()
                &&& refs[i].name@ == name
                &&& found == (refs[i].ref_type, refs[i].snapshot_id)
                &&& forall|j: int| 0 <= j < i ==> (#[trigger] refs[j]).name@ != name
            },
            None => forall|j: int| 0 <= j < refs.len() ==> (#[trigger] refs[j]).name@ != name,
        },
    decreases refs.len(),
{
    if refs.len() == 0 || refs[0].name@ == name {
        0
    } else {
        let rest = refs.skip(1);
        let i = lemma_ref(rest, name);
        if ref_of(rest, name) is None {
            assert forall|j: int| 0 <= j < refs.len() implies (#[trigger] refs[j]).name@
                != name by {
                if j > 0 {
                    assert(rest[j - 1] == refs[j]);
                }
            }
        } else {
            assert(rest[i] == refs[i + 1]);
            assert forall|j: int| 0 <= j < i + 1 implies (#[trigger] refs[j]).name@ != name by {
                if j > 0 {
                    assert(rest[j - 1] == refs[j]);
                }
            }
        }
        i + 1
    }
}

/// A selection by name gives the snapshot that the ref by that name is at, or none
/// where it is at none. A name that no ref has is not found.
pub proof fn lemma_selected_by_ref<C: TextCodec>(
    codec: C,
    refs: Vec<RefRow>,
    records: Vec<SnapshotRecord>,
    name: String,
    r: Result<Option<SnapshotDescriptor>, RuntimeError>,
)
    requires
        call_ensures(
            resolve_snapshot::<C>,
            (&codec, &refs, &records, &SnapshotSelection::Ref(name)),
            r,
        ),
    ensures
        (forall|i: int| 0 <= i < refs@.len() ==> (#[trigger] refs@[i]).name@ != name@) ==> (r
            matches Err(e) && e@ == ErrorView::RefNotFound(name@)),
        forall|i: int|
            0 <= i < refs@.len() && (#[trigger] refs@[i]).name@ == name@ && (forall|j: int|
                0 <= j < i ==> (#[trigger] refs@[j]).name@ != name@) ==> match refs@[i].snapshot_id {
                None => r matches Ok(None),
                Some(id) => answers(codec, records@, id, r),
            },
{
    let k = lemma_ref(refs@, name@);
    assert forall|i: int|
        0 <= i < refs@.len() && (#[trigger] refs@[i]).name@ == name@ && (forall|j: int|
            0 <= j < i ==> (#[trigger] refs@[j]).name@ != name@) implies match refs@[i].snapshot_id {
        None => r matches Ok(None),
        Some(id) => answers(codec, records@, id, r),
    } by {
        if ref_of(refs@, name@) is Some {
            if k < i {
                assert(refs@[k].name@ != name@);
            } else if i < k {
                assert(refs@[i].name@ != name@);
            }
        }
        if let Some(id) = refs@[i].snapshot_id {
            let m = lemma_record(records@, id);
            assert forall|n: int| #[trigger] is_record_of(records@, n, id) implies {
                &&& r matches Ok(found) ==> (found matches Some(d) && tells(codec, d, records@[n]))
                &&& describable(codec, records@[n]) ==> r is Ok
                &&& !sound_numbers(records@[n]) ==> (r matches Err(e) && (e@ is Sqlite || e@
                    is Corrupt))
            } by {
                lemma_records_agree(records@, n, id);
            }
        }
    }
}

proof fn lemma_with_sequence(records: Seq<SnapshotRecord>, n: int)
    ensures
        with_sequence(records, n).len() == 0 <==> forall|i: int|
            0 <= i < records.len() ==> (#[trigger] records[i]).row.sequence_number != n,
        forall|i: int|
            0 <= i < records.len() && (#[trigger] records[i]).row.sequence_number == n && (forall|
                j: int,
            |
                0 <= j < records.len() && j != i ==> (#[trigger] records[j]).row.sequence_number
                    != n) ==> with_sequence(records, n) == seq![records[i].row.snapshot_id],
        forall|i: int, j: int|
            0 <= i < j < records.len() && (#[trigger] records[i]).row.sequence_number == n && (
            #[trigger] records[j]).row.sequence_number == n ==> with_sequence(records, n).len() > 1,
    decreases records.len(),
{
    if records.len() > 0 {
        let front = records.drop_last();
        let last = records.len() - 1;
        lemma_with_sequence(front, n);
        assert forall|i: int| 0 <= i < last implies #[trigger] front[i] == records[i] by {}
        if with_sequence(front, n).len() == 0 {
            assert forall|i: int| 0 <= i < last implies (#[trigger] records[i]).row.sequence_number
                != n by {
                assert(front[i] == records[i]);
            }
        } else {
            let k = choose|k: int|
                0 <= k < front.len() && (#[trigger] front[k]).row.sequence_number == n;
            assert(records[k].row.sequence_number == n);
        }
        assert forall|i: int|
            0 <= i < records.len() && (#[trigger] records[i]).row.sequence_number == n && (forall|
                j: int,
            |
                0 <= j < records.len() && j != i ==> (#[trigger] records[j]).row.sequence_number
                    != n) implies with_sequence(records, n) == seq![
            records[i].row.snapshot_id,
        ] by {
            if i < last {
                assert(records[last].row.sequence_number != n);
                assert(front[i] == records[i]);
                assert forall|j: int| 0 <= j < front.len() && j != i implies (
                #[trigger] front[j]).row.sequence_number != n by {
                    assert(records[j].row.sequence_number != n);
                }
            } else {
                assert forall|j: int| 0 <= j < front.len() implies (
                #[trigger] front[j]).row.sequence_number != n by {
                    assert(records[j].row.sequence_number != n);
                }
                assert(with_sequence(front, n) =~= Seq::<Id>::empty());
                assert(with_sequence(records, n) =~= seq![records[i].row.snapshot_id]);
            }
        }
        assert forall|i: int, j: int|
            0 <= i < j < records.len() && (#[trigger] records[i]).row.sequence_number == n && (
            #[trigger] records[j]).row.sequence_number == n implies with_sequence(records, n).len()
            > 1 by {
            assert(front[i] == records[i]);
            if j < last {
                assert(front[j] == records[j]);
            }
        }
    }
}

/// A selection by sequence number gives the one snapshot that has it. Where none
/// has it there is no such snapshot, and where several have it the table is
/// corrupt.
pub proof fn lemma_selected_by_sequence<C: TextCodec>(
    codec: C,
    refs: Vec<RefRow>,
    records: Vec<SnapshotRecord>,
    n: u64,
    r: Result<Option<SnapshotDescriptor>, RuntimeError>,
)
    requires
        call_ensures(
            resolve_snapshot::<C>,
            (&codec, &refs, &records, &SnapshotSelection::SequenceNumber(n)),
            r,
        ),
    ensures
        (forall|i: int| 0 <= i < records@.len() ==> (#[trigger] records@[i]).row.sequence_number
            != n) ==> (r matches Err(e) && e@ == ErrorView::SnapshotNotFound),
        forall|i: int|
            0 <= i < records@.len() && (#[trigger] records@[i]).row.sequence_number == n && (forall|
                j: int,
            |
                0 <= j < records@.len() && j != i ==> (#[trigger] records@[j]).row.sequence_number
                    != n) ==> answers(codec, records@, records@[i].row.snapshot_id, r),
        forall|i: int, j: int|
            0 <= i < j < records@.len() && (#[trigger] records@[i]).row.sequence_number == n && (
            #[trigger] records@[j]).row.sequence_number == n ==> (r matches Err(e) && e@
                is Corrupt),
{
    lemma_with_sequence(records@, n as int);
    assert forall|i: int|
        0 <= i < records@.len() && (#[trigger] records@[i]).row.sequence_number == n && (forall|
            j: int,
        |
            0 <= j < records@.len() && j != i ==> (#[trigger] records@[j]).row.sequence_number
                != n) implies answers(codec, records@, records@[i].row.snapshot_id, r) by {
        let id = records@[i].row.snapshot_id;
        assert(with_sequence(records@, n as int) == seq![id]);
        let m = lemma_record(records@, id);
        assert forall|k: int| #[trigger] is_record_of(records@, k, id) implies {
            &&& r matches Ok(found) ==> (found matches Some(d) && tells(codec, d, records@[k]))
            &&& describable(codec, records@[k]) ==> r is Ok
            &&& !sound_numbers(records@[k]) ==> (r matches Err(e) && (e@ is Sqlite || e@
                is Corrupt))
        } by {
            lemma_records_agree(records@, k, id);
        }
    }
}

// ---------------------------------------------------------------- listings

/// The record of a file: the first with its identifier.
pub open spec fn is_file_of(files: Seq<FileRecord>, i: int, id: Id) -> bool {
    &&& 0 <= i < files.len()
    &&& files[i].file_id == id
    &&& forall|j: int| 0 <= j < i ==> (#[trigger] files[j]).file_id != id
}

/// A listed file says what its record says, with the given sequence number.
pub open spec fn lists(entry: LiveFile, file: FileRecord, sequence: int) -> bool {
    &&& entry.file_id == file.file_id
    &&& entry.uri@ == file.uri@
    &&& entry.file_format@ == file.file_format@
    &&& entry.file_size_bytes == file.file_size_bytes
    &&& entry.record_count == file.record_count
    &&& entry.content_sha256 == file.content_sha256
    &&& entry.sequence_number == sequence
}

/// Listed files go by sequence number, those of one number by identifier.
pub open spec fn in_order(listed: Seq<LiveFile>) -> bool {
    forall|i: int, j: int|
        0 <= i < j < listed.len() ==> {
            let a = #[trigger] listed[i];
            let b = #[trigger] listed[j];
            a.sequence_number < b.sequence_number || (a.sequence_number == b.sequence_number
                && be_value(a.file_id@) <= be_value(b.file_id@))
        }
}

pub proof fn lemma_file(files: Seq<FileRecord>, id: Id) -> (i: int)
    ensures
        match file_of(files, id) {
            Some(file) => is_file_of(files, i, id) && files[i] == file,
            None => forall|j: int| 0 <= j < files.len() ==> (#[trigger] files[j]).file_id != id,
        },
    decreases files.len(),
{
    if files.len() == 0 || files[0].file_id == id {
        0
    } else {
        let rest = files.skip(1);
        let i = lemma_file(rest, id);
        if file_of(rest, id) is None {
            assert forall|j: int| 0 <= j < files.len() implies (#[trigger] files[j]).file_id
                != id by {
                if j > 0 {
                    assert(rest[j - 1] == files[j]);
                }
            }
        } else {
            assert(rest[i] == files[i + 1]);
            assert forall|j: int| 0 <= j < i + 1 implies (#[trigger] files[j]).file_id != id by {
                if j > 0 {
                    assert(rest[j - 1] == files[j]);
                }
            }
        }
        i + 1
    }
}

proof fn lemma_files_agree(files: Seq<FileRecord>, i: int, id: Id)
    requires
        is_file_of(files, i, id),
    ensures
        file_of(files, id) == Some(files[i]),
{
    let k = lemma_file(files, id);
    if file_of(files, id) is None {
        assert(files[i].file_id != id);
    } else if k < i {
        assert(files[k].file_id != id);
    } else if i < k {
        assert(files[i].file_id != id);
    }
}

/// A row makes a file live on the branch.
pub open spec fn makes_live(
    live: Seq<LiveRow>,
    files: Seq<FileRecord>,
    name: Seq<char>,
    i: int,
    k: int,
) -> bool {
    &&& 0 <= i < live.len()
    &&& live[i].ref_name@ == name
    &&& is_file_of(files, k, live[i].file_id)
}

proof fn lemma_live_on(live: Seq<LiveRow>, files: Seq<FileRecord>, name: Seq<char>, x: LiveFileView)
    ensures
        live_on(live, files, name).contains(x) <==> exists|i: int, k: int| #[trigger]
            makes_live(live, files, name, i, k) && x == shown_file(
                files[k],
                live[i].file_sequence_number,
            ),
    decreases live.len(),
{
    if live.len() == 0 {
    } else {
        let front = live.drop_last();
        let last = live.len() - 1;
        let row = live.last();
        lemma_live_on(front, files, name, x);
        let m = lemma_file(files, row.file_id);
        let before = live_on(front, files, name);
        let all = live_on(live, files, name);
        if all.contains(x) {
            let at = choose|at: int| 0 <= at < all.len() && all[at] == x;
            if at < before.len() {
                assert(before[at] == x);
                let (i, k) = choose|i: int, k: int| #[trigger]
                    makes_live(front, files, name, i, k) && x == shown_file(
                        files[k],
                        front[i].file_sequence_number,
                    );
                assert(front[i] == live[i]);
                assert(makes_live(live, files, name, i, k));
            } else {
                assert(makes_live(live, files, name, last, m));
            }
        }
        if exists|i: int, k: int| #[trigger]
            makes_live(live, files, name, i, k) && x == shown_file(
                files[k],
                live[i].file_sequence_number,
            ) {
            let (i, k) = choose|i: int, k: int| #[trigger]
                makes_live(live, files, name, i, k) && x == shown_file(
                    files[k],
                    live[i].file_sequence_number,
                );
            if i < last {
                assert(front[i] == live[i]);
                assert(makes_live(front, files, name, i, k));
                let at = choose|at: int| 0 <= at < before.len() && before[at] == x;
                assert(all[at] == x);
            } else {
                lemma_files_agree(files, k, row.file_id);
                assert(all[before.len() as int] == x);
            }
        }
    }
}

proof fn lemma_same_members(a: Seq<LiveFileView>, b: Seq<LiveFileView>, x: LiveFileView)
    requires
        a.to_multiset() == b.to_multiset(),
    ensures
        a.contains(x) <==> b.contains(x),
        a.len() == b.len(),
{
    a.to_multiset_ensures();
    b.to_multiset_ensures();
    assert(a.contains(x) <==> a.to_multiset().count(x) > 0);
    assert(b.contains(x) <==> b.to_multiset().count(x) > 0);
}

/// A branch by that name.
pub open spec fn is_branch(refs: Seq<RefRow>, i: int, name: Seq<char>) -> bool {
    0 <= i < refs.len() && refs[i].name@ == name && refs[i].ref_type == RefType::Branch
}

/// The only branch by that name.
pub open spec fn only_branch(refs: Seq<RefRow>, i: int, name: Seq<char>) -> bool {
    is_branch(refs, i, name) && forall|j: int| #[trigger] is_branch(refs, j, name) ==> j == i
}

pub proof fn lemma_branches(refs: Seq<RefRow>, name: Seq<char>)
    ensures
        branches_named(refs, name) == 0 <==> forall|i: int| !#[trigger] is_branch(refs, i, name),
        branches_named(refs, name) == 1 <==> exists|i: int| #[trigger] only_branch(refs, i, name),
    decreases refs.len(),
{
    if refs.len() > 0 {
        let front = refs.drop_last();
        let n = refs.len() - 1;
        lemma_branches(front, name);
        assert forall|i: int| i != n implies #[trigger] is_branch(refs, i, name) == is_branch(
            front,
            i,
            name,
        ) by {}
        if branches_named(front, name) == 0 {
            assert forall|i: int| i != n implies !#[trigger] is_branch(refs, i, name) by {
                assert(!is_branch(front, i, name));
            }
            if is_branch(refs, n, name) {
                assert(only_branch(refs, n, name));
            }
            if exists|i: int| #[trigger] only_branch(refs, i, name) {
                let i = choose|i: int| #[trigger] only_branch(refs, i, name);
                assert(is_branch(refs, i, name));
                assert(i == n);
            }
        } else {
            let k = choose|k: int| #[trigger] is_branch(front, k, name);
            assert(is_branch(refs, k, name));
            if branches_named(front, name) == 1 && !is_branch(refs, n, name) {
                let i = choose|i: int| #[trigger] only_branch(front, i, name);
                assert forall|j: int| #[trigger] is_branch(refs, j, name) implies j == i by {
                    assert(is_branch(front, j, name));
                }
                assert(is_branch(front, i, name));
                assert(only_branch(refs, i, name));
            }
            if exists|i: int| #[trigger] only_branch(refs, i, name) {
                let i = choose|i: int| #[trigger] only_branch(refs, i, name);
                assert(k == i);
                assert(!is_branch(refs, n, name));
                assert forall|j: int| #[trigger] is_branch(front, j, name) implies j == i by {
                    assert(is_branch(refs, j, name));
                }
                assert(only_branch(front, i, name));
            }
        }
    }
}

/// The listing shows the file, with that sequence number.
pub open spec fn is_listed(listed: Seq<LiveFile>, file: FileRecord, sequence: int) -> bool {
    exists|n: int| 0 <= n < listed.len() && lists(#[trigger] listed[n], file, sequence)
}

/// The entry shows a file that is live on the branch.
pub open spec fn comes_from_branch(
    live: Seq<LiveRow>,
    files: Seq<FileRecord>,
    name: Seq<char>,
    entry: LiveFile,
) -> bool {
    exists|i: int, k: int| #[trigger]
        makes_live(live, files, name, i, k) && lists(
            entry,
            files[k],
            live[i].file_sequence_number as int,
        )
}

/// The listing of a branch shows the files that are live on it, each as its record
/// says and with the sequence number of its row, and no others, in their order. It
/// is given only where exactly one branch has the name; otherwise the ref is not
/// found.
pub proof fn lemma_branch_listing<C: TextCodec>(
    codec: C,
    refs: Vec<RefRow>,
    live: Vec<LiveRow>,
    files: Vec<FileRecord>,
    name: String,
    r: Result<Vec<LiveFile>, RuntimeError>,
)
    requires
        call_ensures(branch_files::<C>, (&codec, &refs, &live, &files, &name), r),
    ensures
        r is Ok ==> exists|i: int| #[trigger] only_branch(refs@, i, name@),
        !(exists|i: int| #[trigger] only_branch(refs@, i, name@)) ==> (r matches Err(e) && e@
            == ErrorView::RefNotFound(name@)),
        r matches Ok(listed) ==> in_order(listed@),
        r matches Ok(listed) ==> forall|n: int|
            0 <= n < listed@.len() ==> comes_from_branch(
                live@,
                files@,
                name@,
                #[trigger] listed@[n],
            ),
        r matches Ok(listed) ==> forall|i: int, k: int| #[trigger]
            makes_live(live@, files@, name@, i, k) ==> is_listed(
                listed@,
                files@[k],
                live@[i].file_sequence_number as int,
            ),
{
    lemma_branches(refs@, name@);
    if let Ok(listed) = r {
        let shown = files_view(listed@);
        let all = live_on(live@, files@, name@);
        assert forall|n: int| 0 <= n < listed@.len() implies comes_from_branch(
            live@,
            files@,
            name@,
            #[trigger] listed@[n],
        ) by {
            let x = shown[n];
            assert(shown.contains(x));
            lemma_same_members(shown, all, x);
            lemma_live_on(live@, files@, name@, x);
            let (i, k) = choose|i: int, k: int| #[trigger]
                makes_live(live@, files@, name@, i, k) && x == shown_file(
                    files@[k],
                    live@[i].file_sequence_number,
                );
            assert(listed@[n]@ == x);
            assert(lists(listed@[n], files@[k], live@[i].file_sequence_number as int));
        }
        assert forall|i: int, k: int| #[trigger]
            makes_live(live@, files@, name@, i, k) implies is_listed(
            listed@,
            files@[k],
            live@[i].file_sequence_number as int,
        ) by {
            let x = shown_file(files@[k], live@[i].file_sequence_number);
            lemma_live_on(live@, files@, name@, x);
            lemma_same_members(shown, all, x);
            let n = choose|n: int| 0 <= n < shown.len() && shown[n] == x;
            assert(listed@[n]@ == x);
            assert(lists(listed@[n], files@[k], live@[i].file_sequence_number as int));
        }
        lemma_ordered(listed@);
    }
}

proof fn lemma_ordered(listed: Seq<LiveFile>)
    requires
        in_listing_order(files_view(listed)),
    ensures
        in_order(listed),
{
    let shown = files_view(listed);
    assert forall|i: int, j: int| 0 <= i < j < listed.len() implies {
        let a = #[trigger] listed[i];
        let b = #[trigger] listed[j];
        a.sequence_number < b.sequence_number || (a.sequence_number == b.sequence_number
            && be_value(a.file_id@) <= be_value(b.file_id@))
    } by {
        assert(shown[i] == listed[i]@);
        assert(shown[j] == listed[j]@);
    }
}

/// A change adds a known file in one of the snapshots of a chain.
pub open spec fn adds_along(
    chain: Seq<Id>,
    records: Seq<SnapshotRecord>,
    changes: Seq<ChangeRow>,
    files: Seq<FileRecord>,
    c: int,
    s: int,
    k: int,
) -> bool {
    &&& 0 <= c < changes.len()
    &&& changes[c].change_kind@ == "add"@
    &&& chain.contains(changes[c].snapshot_id)
    &&& is_record_of(records, s, changes[c].snapshot_id)
    &&& is_file_of(files, k, changes[c].file_id)
}

pub proof fn lemma_added_by(
    changes: Seq<ChangeRow>,
    files: Seq<FileRecord>,
    snapshot: Id,
    file: FileRecord,
)
    ensures
        added_by(changes, files, snapshot).contains(file) <==> exists|c: int, k: int|
            0 <= c < changes.len() && changes[c].change_kind@ == "add"@ && changes[c].snapshot_id
                == snapshot && #[trigger] is_file_of(files, k, (#[trigger] changes[c]).file_id)
                && files[k] == file,
    decreases changes.len(),
{
    if changes.len() > 0 {
        let front = changes.drop_last();
        let last = changes.len() - 1;
        let m = lemma_file(files, changes[last].file_id);
        lemma_added_by(front, files, snapshot, file);
        let before = added_by(front, files, snapshot);
        let all = added_by(changes, files, snapshot);
        if all.contains(file) {
            let at = choose|at: int| 0 <= at < all.len() && all[at] == file;
            if at < before.len() {
                assert(before[at] == file);
                let (c, k) = choose|c: int, k: int|
                    0 <= c < front.len() && front[c].change_kind@ == "add"@ && front[c].snapshot_id
                        == snapshot && #[trigger] is_file_of(files, k, (#[trigger] front[c]).file_id)
                        && files[k] == file;
                assert(changes[c] == front[c]);
                assert(is_file_of(files, k, changes[c].file_id));
            } else {
                assert(is_file_of(files, m, changes[last].file_id));
            }
        }
        if exists|c: int, k: int|
            0 <= c < changes.len() && changes[c].change_kind@ == "add"@ && changes[c].snapshot_id
                == snapshot && #[trigger] is_file_of(files, k, (#[trigger] changes[c]).file_id)
                && files[k] == file {
            let (c, k) = choose|c: int, k: int|
                0 <= c < changes.len() && changes[c].change_kind@ == "add"@
                    && changes[c].snapshot_id == snapshot && #[trigger] is_file_of(
                    files,
                    k,
                    (#[trigger] changes[c]).file_id,
                ) && files[k] == file;
            if c < last {
                assert(front[c] == changes[c]);
                assert(is_file_of(files, k, front[c].file_id));
                let at = choose|at: int| 0 <= at < before.len() && before[at] == file;
                assert(all[at] == file);
            } else {
                lemma_files_agree(files, k, changes[last].file_id);
                assert(all[before.len() as int] == file);
            }
        }
    }
}

proof fn lemma_added_along(
    chain: Seq<Id>,
    changes: Seq<ChangeRow>,
    files: Seq<FileRecord>,
    records: Seq<SnapshotRecord>,
    x: LiveFileView,
)
    requires
        forall|n: int| 0 <= n < chain.len() ==> record_of(records, #[trigger] chain[n]) is Some,
    ensures
        added_along(chain, changes, files, records).contains(x) <==> exists|
            c: int,
            s: int,
            k: int,
        | #[trigger]
            adds_along(chain, records, changes, files, c, s, k) && x == shown_file(
                files[k],
                records[s].row.sequence_number,
            ),
    decreases chain.len(),
{
    if chain.len() > 0 {
        let front = chain.drop_last();
        let id = chain.last();
        assert(chain[chain.len() - 1] == id);
        assert forall|n: int| 0 <= n < front.len() implies record_of(records, #[trigger] front[n])
            is Some by {
            assert(front[n] == chain[n]);
        }
        lemma_added_along(front, changes, files, records, x);
        let m = lemma_record(records, id);
        let sequence = record_of(records, id)->0.row.sequence_number;
        let before = added_along(front, changes, files, records);
        let own = added_by(changes, files, id);
        let more = shown_files(own, sequence);
        let all = added_along(chain, changes, files, records);
        if all.contains(x) {
            let at = choose|at: int| 0 <= at < all.len() && all[at] == x;
            if at < before.len() {
                assert(before[at] == x);
                let (c, s, k) = choose|c: int, s: int, k: int| #[trigger]
                    adds_along(front, records, changes, files, c, s, k) && x == shown_file(
                        files[k],
                        records[s].row.sequence_number,
                    );
                let n = choose|n: int|
                    0 <= n < front.len() && front[n] == changes[c].snapshot_id;
                assert(chain[n] == changes[c].snapshot_id);
                assert(adds_along(chain, records, changes, files, c, s, k));
            } else {
                let file = own[at - before.len()];
                assert(own.contains(file));
                lemma_added_by(changes, files, id, file);
                let (c, k) = choose|c: int, k: int|
                    0 <= c < changes.len() && changes[c].change_kind@ == "add"@
                        && changes[c].snapshot_id == id && #[trigger] is_file_of(
                        files,
                        k,
                        (#[trigger] changes[c]).file_id,
                    ) && files[k] == file;
                assert(adds_along(chain, records, changes, files, c, m, k));
            }
        }
        if exists|c: int, s: int, k: int| #[trigger]
            adds_along(chain, records, changes, files, c, s, k) && x == shown_file(
                files[k],
                records[s].row.sequence_number,
            ) {
            let (c, s, k) = choose|c: int, s: int, k: int| #[trigger]
                adds_along(chain, records, changes, files, c, s, k) && x == shown_file(
                    files[k],
                    records[s].row.sequence_number,
                );
            let n = choose|n: int| 0 <= n < chain.len() && chain[n] == changes[c].snapshot_id;
            if n < front.len() {
                assert(front[n] == changes[c].snapshot_id);
                assert(adds_along(front, records, changes, files, c, s, k));
                let at = choose|at: int| 0 <= at < before.len() && before[at] == x;
                assert(all[at] == x);
            } else {
                lemma_records_agree(records, s, id);
                lemma_added_by(changes, files, id, files[k]);
                assert(is_file_of(files, k, changes[c].file_id));
                let at = choose|at: int| 0 <= at < own.len() && own[at] == files[k];
                assert(more[at] == x);
                assert(all[before.len() + at] == x);
            }
        }
    }
}

/// The entry shows a file that a snapshot of the chain has added.
pub open spec fn comes_from_chain(
    chain: Seq<Id>,
    records: Seq<SnapshotRecord>,
    changes: Seq<ChangeRow>,
    files: Seq<FileRecord>,
    entry: LiveFile,
) -> bool {
    exists|c: int, s: int, k: int| #[trigger]
        adds_along(chain, records, changes, files, c, s, k) && lists(
            entry,
            files[k],
            records[s].row.sequence_number as int,
        )
}

/// The listing of a snapshot shows the files that it and the snapshots behind it
/// have added, each as its record says and with the sequence number of the snapshot
/// that added it, and no others, in their order.
pub proof fn lemma_snapshot_listing<C: TextCodec>(
    codec: C,
    records: Vec<SnapshotRecord>,
    changes: Vec<ChangeRow>,
    files: Vec<FileRecord>,
    snapshot: Option<Id>,
    r: Result<Vec<LiveFile>, RuntimeError>,
    chain: Seq<Id>,
    places: Seq<int>,
)
    requires
        call_ensures(snapshot_files::<C>, (&codec, &records, &changes, &files, snapshot), r),
        leads_back(rows_of(records@), snapshot, chain, places, 0),
    ensures
        r matches Ok(listed) ==> in_order(listed@),
        r matches Ok(listed) ==> forall|n: int|
            0 <= n < listed@.len() ==> comes_from_chain(
                chain,
                records@,
                changes@,
                files@,
                #[trigger] listed@[n],
            ),
        r matches Ok(listed) ==> forall|c: int, s: int, k: int| #[trigger]
            adds_along(chain, records@, changes@, files@, c, s, k) ==> is_listed(
                listed@,
                files@[k],
                records@[s].row.sequence_number as int,
            ),
{
    lemma_walk_finds_the_lineage(Walk::History, rows_of(records@), snapshot);
    assert(leads_back(rows_of(records@), snapshot, chain, places, least_of(Walk::History)));
    if let Ok(listed) = r {
        assert forall|n: int| 0 <= n < chain.len() implies record_of(
            records@,
            #[trigger] chain[n],
        ) is Some by {
            let i = places[n];
            assert(is_row_of(rows_of(records@), i, chain[n]));
            let m = lemma_record(records@, chain[n]);
            assert(records@[i].row.snapshot_id == chain[n]);
        }
        let shown = files_view(listed@);
        let all = added_along(chain, changes@, files@, records@);
        assert(shown.to_multiset() == all.to_multiset());
        assert forall|n: int| 0 <= n < listed@.len() implies comes_from_chain(
            chain,
            records@,
            changes@,
            files@,
            #[trigger] listed@[n],
        ) by {
            let x = shown[n];
            assert(shown.contains(x));
            lemma_same_members(shown, all, x);
            lemma_added_along(chain, changes@, files@, records@, x);
            let (c, s, k) = choose|c: int, s: int, k: int| #[trigger]
                adds_along(chain, records@, changes@, files@, c, s, k) && x == shown_file(
                    files@[k],
                    records@[s].row.sequence_number,
                );
            assert(listed@[n]@ == x);
            assert(lists(listed@[n], files@[k], records@[s].row.sequence_number as int));
        }
        assert forall|c: int, s: int, k: int| #[trigger]
            adds_along(chain, records@, changes@, files@, c, s, k) implies is_listed(
            listed@,
            files@[k],
            records@[s].row.sequence_number as int,
        ) by {
            let x = shown_file(files@[k], records@[s].row.sequence_number);
            lemma_added_along(chain, changes@, files@, records@, x);
            lemma_same_members(shown, all, x);
            let n = choose|n: int| 0 <= n < shown.len() && shown[n] == x;
            assert(listed@[n]@ == x);
            assert(lists(listed@[n], files@[k], records@[s].row.sequence_number as int));
        }
        lemma_ordered(listed@);
    }
}

} // verus!

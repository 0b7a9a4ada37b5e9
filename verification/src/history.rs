//! Snapshots and files of a pinned version, and what a verification visits.
use crate::bytes::{be_value, is_below};
use crate::catalog::{
    holds_id, lineage, ref_of, ref_row, snapshot_of, RefRow, RefType, SnapshotRow, Walk,
};
use crate::documents::{Head, ObjectReference};
use crate::error::{corrupt, ErrorView, RuntimeError};
use crate::hash::{Id, Sha256};
use crate::tables::{nonnegative, ChangeRow, CommitRow, FileRecord, LiveRow, SnapshotRecord};
use crate::text::{append_decimal, append_signed, decimal, joined, reads, signed};
use crate::value::CanonicalValue;
use vstd::prelude::*;
use vstd::string::*;

verus! {

/// Which snapshot is asked for.
#[derive(Debug)]
pub enum SnapshotSelection {
    Ref(String),
    SnapshotId(Id),
    SequenceNumber(u64),
}

/// The head that a pin or a verification started from.
#[derive(Clone, Copy, Debug)]
pub struct HeadAnchor {
    pub table_id: Id,
    pub table_version: u64,
    pub root_revision: u64,
    pub semantic_state_sha256: Sha256,
}

/// Where a pinned version stands.
#[derive(Clone, Copy, Debug)]
pub struct MetadataCoordinates {
    pub table_id: Id,
    pub table_version: u64,
    pub commit_id: Id,
    pub semantic_state_sha256: Sha256,
    pub main_snapshot_id: Option<Id>,
}

/// A table as its head describes it.
#[derive(Clone, Copy, Debug)]
pub struct Status {
    pub table_id: Id,
    pub table_version: u64,
    pub root_revision: u64,
    pub semantic_state_sha256: Sha256,
    pub current_snapshot_id: Option<Id>,
}

#[derive(Debug)]
pub struct SnapshotDescriptor {
    pub snapshot_id: Id,
    pub parent_snapshot_id: Option<Id>,
    pub sequence_number: u64,
    pub committed_table_version: u64,
    pub schema_id: u32,
    pub partition_spec_id: u32,
    pub sort_order_id: u32,
    pub operation: String,
    pub committed_at_ms: i64,
    pub summary: CanonicalValue,
    pub metadata: CanonicalValue,
}

#[derive(Debug)]
pub struct LiveFile {
    pub file_id: Id,
    pub uri: String,
    pub file_format: String,
    pub file_size_bytes: u64,
    pub record_count: u64,
    pub content_sha256: Option<Sha256>,
    pub sequence_number: u64,
}

#[derive(Debug)]
pub struct HistoryEntry {
    pub table_version: u64,
    pub commit_id: Id,
    pub created_at_ms: i64,
    pub semantic_state_sha256: Sha256,
    pub commit_object_uri: String,
}

/// The protocol's reading of stored texts.
pub trait TextCodec {
    /// The value that a canonical text stands for.
    fn parse(&self, text: &String) -> Result<CanonicalValue, RuntimeError>;

    /// Whether a text is a safe relative address.
    fn check_uri(&self, text: &String) -> Result<(), RuntimeError>;
}

pub fn head_anchor(head: &Head) -> (anchor: HeadAnchor)
    ensures
        anchor.table_id == head.table_id,
        anchor.table_version == head.table_version,
        anchor.root_revision == head.root_revision,
        anchor.semantic_state_sha256 == head.semantic_state_sha256,
{
    HeadAnchor {
        table_id: head.table_id,
        table_version: head.table_version,
        root_revision: head.root_revision,
        semantic_state_sha256: head.semantic_state_sha256,
    }
}

pub fn coordinates_of(head: &Head, commit_id: Id, main: Option<Id>) -> (at: MetadataCoordinates)
    ensures
        at.table_id == head.table_id,
        at.table_version == head.table_version,
        at.commit_id == commit_id,
        at.semantic_state_sha256 == head.semantic_state_sha256,
        at.main_snapshot_id == main,
{
    MetadataCoordinates {
        table_id: head.table_id,
        table_version: head.table_version,
        commit_id,
        semantic_state_sha256: head.semantic_state_sha256,
        main_snapshot_id: main,
    }
}

pub fn status_of(head: &Head, main: Option<Id>) -> (status: Status)
    ensures
        status.table_id == head.table_id,
        status.table_version == head.table_version,
        status.root_revision == head.root_revision,
        status.semantic_state_sha256 == head.semantic_state_sha256,
        status.current_snapshot_id == main,
{
    Status {
        table_id: head.table_id,
        table_version: head.table_version,
        root_revision: head.root_revision,
        semantic_state_sha256: head.semantic_state_sha256,
        current_snapshot_id: main,
    }
}

/// The first record of a snapshot.
pub open spec fn record_of(records: Seq<SnapshotRecord>, id: Id) -> Option<SnapshotRecord>
    decreases records.len(),
{
    if records.len() == 0 {
        None
    } else if records[0].row.snapshot_id == id {
        Some(records[0])
    } else {
        record_of(records.skip(1), id)
    }
}

pub open spec fn rows_of(records: Seq<SnapshotRecord>) -> Seq<SnapshotRow> {
    Seq::new(records.len(), |i: int| records[i].row)
}

proof fn lemma_record_row(records: Seq<SnapshotRecord>, id: Id)
    ensures
        snapshot_of(rows_of(records), id) == match record_of(records, id) {
            None => None,
            Some(record) => Some(record.row),
        },
        record_of(records, id) matches Some(record) ==> record.row.snapshot_id == id
            && records.contains(record),
    decreases records.len(),
{
    if records.len() > 0 {
        assert(rows_of(records).skip(1) =~= rows_of(records.skip(1)));
        lemma_record_row(records.skip(1), id);
        assert(records.contains(records[0]));
        if let Some(record) = record_of(records.skip(1), id) {
            let k = choose|k: int|
                0 <= k < records.skip(1).len() && records.skip(1)[k] == record;
            assert(records[k + 1] == record);
        }
    }
}

fn find_record<'a>(records: &'a Vec<SnapshotRecord>, id: &Id) -> (found: Option<
    &'a SnapshotRecord,
>)
    ensures
        match found {
            Some(record) => record_of(records@, *id) == Some(*record),
            None => record_of(records@, *id) is None,
        },
{
    let mut i: usize = 0;
    assert(records@.skip(0) =~= records@);
    while i < records.len()
        invariant
            i <= records@.len(),
            record_of(records@, *id) == record_of(records@.skip(i as int), *id),
        decreases records@.len() - i,
    {
        assert(records@.skip(i as int).skip(1) =~= records@.skip(i + 1));
        if records[i].row.snapshot_id == *id {
            return Some(&records[i]);
        }
        i = i + 1;
    }
    None
}

/// What a stored number that should fit in four bytes is answered.
pub open spec fn out_of_range(value: int, column: nat) -> ErrorView {
    ErrorView::Sqlite("Integer "@ + signed(value) + " out of range at index "@ + decimal(column))
}

pub open spec fn fits_u32(value: i64) -> bool {
    0 <= value <= u32::MAX
}

fn small(value: i64, column: u64) -> (r: Result<u32, RuntimeError>)
    ensures
        match r {
            Ok(n) => fits_u32(value) && n == value,
            Err(e) => !fits_u32(value) && e@ == out_of_range(value as int, column as nat),
        },
{
    if 0 <= value && value <= u32::MAX as i64 {
        return Ok(value as u32);
    }
    let mut text = "Integer ".to_owned();
    append_signed(&mut text, value);
    text.append(" out of range at index ");
    append_decimal(&mut text, column);
    Err(RuntimeError::Sqlite(text))
}

/// What is wrong with a snapshot's numbers.
pub open spec fn record_check(record: SnapshotRecord) -> Result<(), ErrorView> {
    if !fits_u32(record.schema_id) {
        Err(out_of_range(record.schema_id as int, 3))
    } else if !fits_u32(record.partition_spec_id) {
        Err(out_of_range(record.partition_spec_id as int, 4))
    } else if !fits_u32(record.sort_order_id) {
        Err(out_of_range(record.sort_order_id as int, 5))
    } else if record.row.sequence_number < 0 {
        Err(ErrorView::Corrupt("negative sequence"@))
    } else if record.committed_table_version < 0 {
        Err(ErrorView::Corrupt("negative version"@))
    } else {
        Ok(())
    }
}

pub open spec fn parse_refused<C: TextCodec>(codec: C, text: String, e: RuntimeError) -> bool {
    call_ensures(C::parse, (&codec, &text), Err::<CanonicalValue, RuntimeError>(e))
}

/// A snapshot that cannot be described, and why: the first of its faults.
pub open spec fn unreadable<C: TextCodec>(
    codec: C,
    record: SnapshotRecord,
    e: RuntimeError,
) -> bool {
    match record_check(record) {
        Err(error) => e@ == error,
        Ok(()) => parse_refused(codec, record.summary_json, e) || (parses(
            codec,
            record.summary_json,
        ) && parse_refused(codec, record.metadata_json, e)),
    }
}

/// The protocol reads the text.
pub open spec fn parses<C: TextCodec>(codec: C, text: String) -> bool {
    exists|value: CanonicalValue| #[trigger]
        call_ensures(C::parse, (&codec, &text), Ok::<CanonicalValue, RuntimeError>(value))
}

/// A snapshot that can be described.
pub open spec fn readable<C: TextCodec>(codec: C, record: SnapshotRecord) -> bool {
    &&& record_check(record) is Ok
    &&& parses(codec, record.summary_json)
    &&& parses(codec, record.metadata_json)
}

pub open spec fn describes<C: TextCodec>(
    codec: C,
    d: SnapshotDescriptor,
    record: SnapshotRecord,
) -> bool {
    &&& record_check(record) is Ok
    &&& d.snapshot_id == record.row.snapshot_id
    &&& d.parent_snapshot_id == record.row.parent_snapshot_id
    &&& d.sequence_number == record.row.sequence_number
    &&& d.committed_table_version == record.committed_table_version
    &&& d.schema_id == record.schema_id
    &&& d.partition_spec_id == record.partition_spec_id
    &&& d.sort_order_id == record.sort_order_id
    &&& d.operation@ == record.operation@
    &&& d.committed_at_ms == record.committed_at_ms
    &&& call_ensures(
        C::parse,
        (&codec, &record.summary_json),
        Ok::<CanonicalValue, RuntimeError>(d.summary),
    )
    &&& call_ensures(
        C::parse,
        (&codec, &record.metadata_json),
        Ok::<CanonicalValue, RuntimeError>(d.metadata),
    )
}

/// Describes a snapshot.
pub fn descriptor<C: TextCodec>(codec: &C, records: &Vec<SnapshotRecord>, id: &Id) -> (r: Result<
    SnapshotDescriptor,
    RuntimeError,
>)
    ensures
        match r {
            Ok(d) => record_of(records@, *id) matches Some(record) && describes(*codec, d, record),
            Err(e) => match record_of(records@, *id) {
                None => e@ == ErrorView::SnapshotNotFound,
                Some(record) => unreadable(*codec, record, e),
            },
        },
{
    let record = match find_record(records, id) {
        None => {
            return Err(RuntimeError::SnapshotNotFound);
        },
        Some(record) => record,
    };
    let schema_id: u32 = small(record.schema_id, 3)?;
    let partition_spec_id: u32 = small(record.partition_spec_id, 4)?;
    let sort_order_id: u32 = small(record.sort_order_id, 5)?;
    if record.row.sequence_number < 0 {
        return Err(corrupt("negative sequence"));
    }
    if record.committed_table_version < 0 {
        return Err(corrupt("negative version"));
    }
    let summary = codec.parse(&record.summary_json)?;
    assert(parses(*codec, record.summary_json));
    let metadata = codec.parse(&record.metadata_json)?;
    Ok(
        SnapshotDescriptor {
            snapshot_id: record.row.snapshot_id,
            parent_snapshot_id: record.row.parent_snapshot_id,
            sequence_number: record.row.sequence_number as u64,
            committed_table_version: record.committed_table_version as u64,
            schema_id,
            partition_spec_id,
            sort_order_id,
            operation: record.operation.clone(),
            committed_at_ms: record.committed_at_ms,
            summary,
            metadata,
        },
    )
}

/// The snapshots with a sequence number, in the order of their rows.
pub open spec fn with_sequence(records: Seq<SnapshotRecord>, sequence: int) -> Seq<Id>
    decreases records.len(),
{
    if records.len() == 0 {
        Seq::empty()
    } else if records.last().row.sequence_number == sequence {
        with_sequence(records.drop_last(), sequence).push(records.last().row.snapshot_id)
    } else {
        with_sequence(records.drop_last(), sequence)
    }
}

/// The snapshot that a selection names. A ref may name none.
pub open spec fn selected(
    refs: Seq<RefRow>,
    records: Seq<SnapshotRecord>,
    selection: SnapshotSelection,
) -> Result<Option<Id>, ErrorView> {
    match selection {
        SnapshotSelection::Ref(name) => match ref_of(refs, name@) {
            None => Err(ErrorView::RefNotFound(name@)),
            Some((_, tip)) => Ok(tip),
        },
        SnapshotSelection::SnapshotId(id) => Ok(Some(id)),
        SnapshotSelection::SequenceNumber(n) => {
            let ids = with_sequence(records, n as int);
            if n > i64::MAX || ids.len() == 0 {
                Err(ErrorView::SnapshotNotFound)
            } else if ids.len() == 1 {
                Ok(Some(ids[0]))
            } else {
                Err(ErrorView::Corrupt("duplicate snapshot sequence"@))
            }
        },
    }
}

fn select(refs: &Vec<RefRow>, records: &Vec<SnapshotRecord>, selection: &SnapshotSelection) -> (r:
    Result<Option<Id>, RuntimeError>)
    ensures
        match r {
            Ok(id) => selected(refs@, records@, *selection) == Ok::<Option<Id>, ErrorView>(id),
            Err(e) => selected(refs@, records@, *selection) == Err::<Option<Id>, ErrorView>(e@),
        },
{
    match selection {
        SnapshotSelection::Ref(name) => match ref_row(refs, name) {
            None => Err(RuntimeError::RefNotFound(name.clone())),
            Some((_, tip)) => Ok(tip),
        },
        SnapshotSelection::SnapshotId(id) => Ok(Some(*id)),
        SnapshotSelection::SequenceNumber(n) => {
            if *n > i64::MAX as u64 {
                return Err(RuntimeError::SnapshotNotFound);
            }
            let sequence: i64 = *n as i64;
            let mut ids: Vec<Id> = Vec::new();
            let mut i: usize = 0;
            assert(with_sequence(records@.take(0), sequence as int) =~= ids@);
            while i < records.len()
                invariant
                    i <= records@.len(),
                    ids@ == with_sequence(records@.take(i as int), sequence as int),
                decreases records@.len() - i,
            {
                assert(records@.take(i + 1).drop_last() =~= records@.take(i as int));
                if records[i].row.sequence_number == sequence {
                    ids.push(records[i].row.snapshot_id);
                }
                i = i + 1;
            }
            assert(records@.take(i as int) =~= records@);
            if ids.len() == 0 {
                Err(RuntimeError::SnapshotNotFound)
            } else if ids.len() == 1 {
                Ok(Some(ids[0]))
            } else {
                Err(corrupt("duplicate snapshot sequence"))
            }
        },
    }
}

/// Finds and describes the selected snapshot.
pub fn resolve_snapshot<C: TextCodec>(
    codec: &C,
    refs: &Vec<RefRow>,
    records: &Vec<SnapshotRecord>,
    selection: &SnapshotSelection,
) -> (r: Result<Option<SnapshotDescriptor>, RuntimeError>)
    ensures
        match selected(refs@, records@, *selection) {
            Err(error) => r matches Err(e) && e@ == error,
            Ok(None) => r matches Ok(None),
            Ok(Some(id)) => match record_of(records@, id) {
                None => r matches Err(e) && e@ == ErrorView::SnapshotNotFound,
                Some(record) => match r {
                    Ok(d) => d matches Some(d) && describes(*codec, d, record),
                    Err(e) => unreadable(*codec, record, e),
                },
            },
        },
{
    match select(refs, records, selection) {
        Err(e) => Err(e),
        Ok(None) => Ok(None),
        Ok(Some(id)) => match descriptor(codec, records, &id) {
            Err(e) => Err(e),
            Ok(d) => Ok(Some(d)),
        },
    }
}

/// The walk from a snapshot to its root, with those that it has come to: it ends
/// with all of them, or at the first that was met before, is missing, cannot be
/// described or does not come before the one that it was reached from.
pub open spec fn ancestry_outcome<C: TextCodec>(
    codec: C,
    records: Seq<SnapshotRecord>,
    next: Option<Id>,
    met: Seq<Id>,
    last: int,
    r: Result<Seq<Id>, RuntimeError>,
) -> bool
    decreases last,
{
    match next {
        None => r == Ok::<Seq<Id>, RuntimeError>(met),
        Some(id) => if met.contains(id) {
            r matches Err(e) && e@ == ErrorView::Corrupt("snapshot ancestry cycle"@)
        } else {
            match record_of(records, id) {
                None => r matches Err(e) && e@ == ErrorView::Corrupt(
                    "dangling snapshot ancestry"@,
                ),
                Some(record) => {
                    ||| r matches Err(e) && unreadable(codec, record, e)
                    ||| readable(codec, record) && if 0 <= record.row.sequence_number < last {
                        ancestry_outcome(
                            codec,
                            records,
                            record.row.parent_snapshot_id,
                            met.push(id),
                            record.row.sequence_number as int,
                            r,
                        )
                    } else {
                        r matches Err(e) && e@ == ErrorView::Corrupt(
                            "nondecreasing snapshot ancestry"@,
                        )
                    }
                },
            }
        },
    }
}

/// What was found, with the list as its elements.
pub open spec fn found(r: Result<Vec<Id>, RuntimeError>) -> Result<Seq<Id>, RuntimeError> {
    match r {
        Ok(chain) => Ok(chain@),
        Err(e) => Err(e),
    }
}

/// The snapshots from a tip to its root, each of which can be described.
pub fn described_ancestry<C: TextCodec>(
    codec: &C,
    records: &Vec<SnapshotRecord>,
    tip: Option<Id>,
) -> (r: Result<Vec<Id>, RuntimeError>)
    ensures
        ancestry_outcome(*codec, records@, tip, Seq::empty(), u64::MAX as int, found(r)),
        r matches Ok(chain) ==> lineage(
            Walk::History,
            rows_of(records@),
            tip,
            Seq::empty(),
            u64::MAX as int,
        ) == Ok::<Seq<Id>, ErrorView>(chain@),
{
    let ghost rows = rows_of(records@);
    let ghost plan = lineage(Walk::History, rows, tip, Seq::empty(), u64::MAX as int);
    let mut chain: Vec<Id> = Vec::new();
    let mut last: u64 = u64::MAX;
    let mut next: Option<Id> = tip;
    assert(chain@ =~= Seq::<Id>::empty());
    loop
        invariant
            rows == rows_of(records@),
            plan == lineage(Walk::History, rows, tip, Seq::empty(), u64::MAX as int),
            plan == lineage(Walk::History, rows, next, chain@, last as int),
            forall|r: Result<Seq<Id>, RuntimeError>| #[trigger]
                ancestry_outcome(*codec, records@, next, chain@, last as int, r)
                    ==> ancestry_outcome(
                    *codec,
                    records@,
                    tip,
                    Seq::empty(),
                    u64::MAX as int,
                    r,
                ),
        decreases last,
    {
        let id: Id = match next {
            None => {
                assert(ancestry_outcome(
                    *codec,
                    records@,
                    next,
                    chain@,
                    last as int,
                    Ok::<Seq<Id>, RuntimeError>(chain@),
                ));
                return Ok(chain);
            },
            Some(id) => id,
        };
        if holds_id(&chain, &id) {
            let e = corrupt("snapshot ancestry cycle");
            assert(ancestry_outcome(
                *codec,
                records@,
                next,
                chain@,
                last as int,
                Err::<Seq<Id>, RuntimeError>(e),
            ));
            return Err(e);
        }
        proof {
            lemma_record_row(records@, id);
        }
        if find_record(records, &id).is_none() {
            let e = corrupt("dangling snapshot ancestry");
            assert(ancestry_outcome(
                *codec,
                records@,
                next,
                chain@,
                last as int,
                Err::<Seq<Id>, RuntimeError>(e),
            ));
            return Err(e);
        }
        let d = match descriptor(codec, records, &id) {
            Err(e) => {
                assert(ancestry_outcome(
                    *codec,
                    records@,
                    next,
                    chain@,
                    last as int,
                    Err::<Seq<Id>, RuntimeError>(e),
                ));
                return Err(e);
            },
            Ok(d) => d,
        };
        assert(readable(*codec, record_of(records@, id)->0));
        if d.sequence_number >= last {
            let e = corrupt("nondecreasing snapshot ancestry");
            assert(ancestry_outcome(
                *codec,
                records@,
                next,
                chain@,
                last as int,
                Err::<Seq<Id>, RuntimeError>(e),
            ));
            return Err(e);
        }
        let ghost from = next;
        let ghost met = chain@;
        let ghost bound = last as int;
        last = d.sequence_number;
        chain.push(id);
        next = d.parent_snapshot_id;
        proof {
            assert forall|r: Result<Seq<Id>, RuntimeError>| #[trigger]
                ancestry_outcome(*codec, records@, next, chain@, last as int, r) implies
                ancestry_outcome(
                *codec,
                records@,
                tip,
                Seq::empty(),
                u64::MAX as int,
                r,
            ) by {
                assert(ancestry_outcome(*codec, records@, from, met, bound, r));
            }
        }
    }
}

/// A file of a listing, with its texts as characters.
#[verifier::ext_equal]
pub struct LiveFileView {
    pub file_id: Id,
    pub uri: Seq<char>,
    pub file_format: Seq<char>,
    pub file_size_bytes: int,
    pub record_count: int,
    pub content_sha256: Option<Sha256>,
    pub sequence_number: int,
}

impl View for LiveFile {
    type V = LiveFileView;

    open spec fn view(&self) -> LiveFileView {
        LiveFileView {
            file_id: self.file_id,
            uri: self.uri@,
            file_format: self.file_format@,
            file_size_bytes: self.file_size_bytes as int,
            record_count: self.record_count as int,
            content_sha256: self.content_sha256,
            sequence_number: self.sequence_number as int,
        }
    }
}

pub open spec fn files_view(files: Seq<LiveFile>) -> Seq<LiveFileView> {
    Seq::new(files.len(), |i: int| files[i]@)
}

/// A file record as a listing shows it.
pub open spec fn shown_file(file: FileRecord, sequence: i64) -> LiveFileView {
    LiveFileView {
        file_id: file.file_id,
        uri: file.uri@,
        file_format: file.file_format@,
        file_size_bytes: file.file_size_bytes as int,
        record_count: file.record_count as int,
        content_sha256: file.content_sha256,
        sequence_number: sequence as int,
    }
}

pub open spec fn shown_files(files: Seq<FileRecord>, sequence: i64) -> Seq<LiveFileView> {
    Seq::new(files.len(), |i: int| shown_file(files[i], sequence))
}

/// The first record of a file.
pub open spec fn file_of(files: Seq<FileRecord>, id: Id) -> Option<FileRecord>
    decreases files.len(),
{
    if files.len() == 0 {
        None
    } else if files[0].file_id == id {
        Some(files[0])
    } else {
        file_of(files.skip(1), id)
    }
}

fn find_file<'a>(files: &'a Vec<FileRecord>, id: &Id) -> (found: Option<&'a FileRecord>)
    ensures
        match found {
            Some(file) => file_of(files@, *id) == Some(*file),
            None => file_of(files@, *id) is None,
        },
{
    let mut i: usize = 0;
    assert(files@.skip(0) =~= files@);
    while i < files.len()
        invariant
            i <= files@.len(),
            file_of(files@, *id) == file_of(files@.skip(i as int), *id),
        decreases files@.len() - i,
    {
        assert(files@.skip(i as int).skip(1) =~= files@.skip(i + 1));
        if files[i].file_id == *id {
            return Some(&files[i]);
        }
        i = i + 1;
    }
    None
}

/// Whether a change adds a known file to a snapshot.
pub open spec fn adds(change: ChangeRow, files: Seq<FileRecord>, snapshot: Id) -> bool {
    &&& change.snapshot_id == snapshot
    &&& change.change_kind@ == "add"@
    &&& file_of(files, change.file_id) is Some
}

/// The files that a snapshot adds, in the order of the changes.
pub open spec fn added_by(
    changes: Seq<ChangeRow>,
    files: Seq<FileRecord>,
    snapshot: Id,
) -> Seq<FileRecord>
    decreases changes.len(),
{
    if changes.len() == 0 {
        Seq::empty()
    } else if adds(changes.last(), files, snapshot) {
        added_by(changes.drop_last(), files, snapshot).push(
            file_of(files, changes.last().file_id)->0,
        )
    } else {
        added_by(changes.drop_last(), files, snapshot)
    }
}

/// The files that the snapshots of a chain add, each with the sequence number
/// of its snapshot.
pub open spec fn added_along(
    chain: Seq<Id>,
    changes: Seq<ChangeRow>,
    files: Seq<FileRecord>,
    records: Seq<SnapshotRecord>,
) -> Seq<LiveFileView>
    decreases chain.len(),
{
    if chain.len() == 0 {
        Seq::empty()
    } else {
        added_along(chain.drop_last(), changes, files, records) + shown_files(
            added_by(changes, files, chain.last()),
            record_of(records, chain.last())->0.row.sequence_number,
        )
    }
}

pub open spec fn uri_refused<C: TextCodec>(codec: C, uri: String, e: RuntimeError) -> bool {
    call_ensures(C::check_uri, (&codec, &uri), Err::<(), RuntimeError>(e))
}

/// The protocol accepts the address.
pub open spec fn uri_accepted<C: TextCodec>(codec: C, uri: String) -> bool {
    exists|verdict: Result<(), RuntimeError>|
        verdict is Ok && #[trigger] call_ensures(C::check_uri, (&codec, &uri), verdict)
}

/// A file that cannot be listed, and why: the first of its faults.
pub open spec fn unlistable<C: TextCodec>(codec: C, file: FileRecord, e: RuntimeError) -> bool {
    ||| uri_refused(codec, file.uri, e)
    ||| uri_accepted(codec, file.uri) && if file.file_size_bytes < 0 {
        e@ == ErrorView::Corrupt("negative length"@)
    } else {
        file.record_count < 0 && e@ == ErrorView::Corrupt("negative "@ + "record count"@)
    }
}

pub open spec fn listable<C: TextCodec>(codec: C, file: FileRecord) -> bool {
    &&& uri_accepted(codec, file.uri)
    &&& file.file_size_bytes >= 0
    &&& file.record_count >= 0
}

pub open spec fn all_listable<C: TextCodec>(codec: C, files: Seq<FileRecord>) -> bool {
    forall|i: int| 0 <= i < files.len() ==> listable(codec, #[trigger] files[i])
}

pub open spec fn unlistable_at<C: TextCodec>(
    codec: C,
    files: Seq<FileRecord>,
    i: int,
    e: RuntimeError,
) -> bool {
    unlistable(codec, files[i], e) && all_listable(codec, files.take(i))
}

/// The first of the files that cannot be listed, and why.
pub open spec fn first_unlistable<C: TextCodec>(
    codec: C,
    files: Seq<FileRecord>,
    e: RuntimeError,
) -> bool {
    exists|i: int| 0 <= i < files.len() && #[trigger] unlistable_at(codec, files, i, e)
}

proof fn lemma_unlistable_join<C: TextCodec>(
    codec: C,
    first: Seq<FileRecord>,
    rest: Seq<FileRecord>,
    e: RuntimeError,
)
    ensures
        first_unlistable(codec, first, e) ==> first_unlistable(codec, first + rest, e),
        all_listable(codec, first) && first_unlistable(codec, rest, e) ==> first_unlistable(
            codec,
            first + rest,
            e,
        ),
{
    let all = first + rest;
    if first_unlistable(codec, first, e) {
        let i = choose|i: int| 0 <= i < first.len() && #[trigger] unlistable_at(codec, first, i, e);
        assert(all.take(i) =~= first.take(i));
        assert(unlistable_at(codec, all, i, e));
    }
    if all_listable(codec, first) && first_unlistable(codec, rest, e) {
        let i = choose|i: int| 0 <= i < rest.len() && #[trigger] unlistable_at(codec, rest, i, e);
        let at = first.len() + i;
        let before = all.take(at);
        assert forall|k: int| 0 <= k < before.len() implies listable(
            codec,
            #[trigger] before[k],
        ) by {
            if k < first.len() {
                assert(before[k] == first[k]);
            } else {
                assert(before[k] == rest.take(i)[k - first.len()]);
            }
        }
        assert(all[at] == rest[i]);
        assert(unlistable_at(codec, all, at, e));
    }
}

proof fn lemma_listable_join<C: TextCodec>(
    codec: C,
    first: Seq<FileRecord>,
    rest: Seq<FileRecord>,
)
    requires
        all_listable(codec, first),
        all_listable(codec, rest),
    ensures
        all_listable(codec, first + rest),
{
    let all = first + rest;
    assert forall|k: int| 0 <= k < all.len() implies listable(codec, #[trigger] all[k]) by {
        if k < first.len() {
            assert(all[k] == first[k]);
        } else {
            assert(all[k] == rest[k - first.len()]);
        }
    }
}

/// The files that the snapshots of a chain add.
pub open spec fn files_along(
    chain: Seq<Id>,
    changes: Seq<ChangeRow>,
    files: Seq<FileRecord>,
) -> Seq<FileRecord>
    decreases chain.len(),
{
    if chain.len() == 0 {
        Seq::empty()
    } else {
        files_along(chain.drop_last(), changes, files) + added_by(changes, files, chain.last())
    }
}

proof fn lemma_unlistable_along<C: TextCodec>(
    codec: C,
    chain: Seq<Id>,
    changes: Seq<ChangeRow>,
    files: Seq<FileRecord>,
    n: int,
    e: RuntimeError,
)
    requires
        0 <= n <= chain.len(),
        first_unlistable(codec, files_along(chain.take(n), changes, files), e),
    ensures
        first_unlistable(codec, files_along(chain, changes, files), e),
    decreases chain.len() - n,
{
    if n == chain.len() {
        assert(chain.take(n) =~= chain);
    } else {
        assert(chain.take(n + 1).drop_last() =~= chain.take(n));
        lemma_unlistable_join(
            codec,
            files_along(chain.take(n), changes, files),
            added_by(changes, files, chain[n]),
            e,
        );
        lemma_unlistable_along(codec, chain, changes, files, n + 1, e);
    }
}

fn listed_file<C: TextCodec>(codec: &C, file: &FileRecord, sequence: i64) -> (r: Result<
    LiveFile,
    RuntimeError,
>)
    requires
        sequence >= 0,
    ensures
        match r {
            Ok(listed) => listed@ == shown_file(*file, sequence) && listable(*codec, *file),
            Err(e) => unlistable(*codec, *file, e),
        },
{
    let verdict = codec.check_uri(&file.uri);
    if let Err(e) = verdict {
        return Err(e);
    }
    assert(uri_accepted(*codec, file.uri));
    if file.file_size_bytes < 0 {
        return Err(corrupt("negative length"));
    }
    let record_count: u64 = nonnegative(file.record_count, "record count")?;
    Ok(
        LiveFile {
            file_id: file.file_id,
            uri: file.uri.clone(),
            file_format: file.file_format.clone(),
            file_size_bytes: file.file_size_bytes as u64,
            record_count,
            content_sha256: file.content_sha256,
            sequence_number: sequence as u64,
        },
    )
}

/// Listings go by sequence number, and by file within one.
pub open spec fn listed_before(a: LiveFileView, b: LiveFileView) -> bool {
    a.sequence_number < b.sequence_number || (a.sequence_number == b.sequence_number && be_value(
        a.file_id@,
    ) < be_value(b.file_id@))
}

pub open spec fn in_listing_order(files: Seq<LiveFileView>) -> bool {
    forall|i: int, j: int|
        #![trigger files[i], files[j]]
        0 <= i < j < files.len() ==> !listed_before(files[j], files[i])
}

fn comes_before(a: &LiveFile, b: &LiveFile) -> (before: bool)
    ensures
        before == listed_before(a@, b@),
{
    if a.sequence_number != b.sequence_number {
        return a.sequence_number < b.sequence_number;
    }
    is_below(a.file_id.bytes.as_slice(), b.file_id.bytes.as_slice())
}

/// Puts a file where it belongs in a listing, after those with the same place.
fn insert_listed(files: &mut Vec<LiveFile>, file: LiveFile)
    requires
        in_listing_order(files_view(old(files)@)),
    ensures
        in_listing_order(files_view(final(files)@)),
        files_view(final(files)@).to_multiset() == files_view(old(files)@).to_multiset().insert(
            file@,
        ),
{
    let ghost before = files_view(files@);
    let ghost new = file@;
    let mut at: usize = files.len();
    while at > 0 && comes_before(&file, &files[at - 1])
        invariant
            at <= files@.len(),
            before == files_view(files@),
            new == file@,
            forall|k: int| at <= k < files@.len() ==> listed_before(new, #[trigger] before[k]),
        decreases at,
    {
        at = at - 1;
        assert(before[at as int] == files@[at as int]@);
    }
    files.insert(at, file);
    proof {
        let after = files_view(files@);
        assert(after =~= before.insert(at as int, new));
        vstd::seq_lib::to_multiset_insert(before, at as int, new);
        if at > 0 {
            assert(before[at - 1] == after[at - 1]);
        }
        assert forall|i: int, j: int|
            #![trigger after[i], after[j]]
            0 <= i < j < after.len() implies !listed_before(after[j], after[i]) by {
            if i < at && j == at {
                assert(!listed_before(new, before[at - 1]));
                if i < at - 1 {
                    assert(!listed_before(before[at - 1], before[i]));
                }
            } else if i == at {
                assert(after[j] == before[j - 1]);
            } else {
                let a = if i < at {
                    i
                } else {
                    i - 1
                };
                let b = if j < at {
                    j
                } else {
                    j - 1
                };
                assert(after[i] == before[a]);
                assert(after[j] == before[b]);
            }
        }
    }
}

/// Puts files into the order of a listing.
pub fn sort_files(files: Vec<LiveFile>) -> (sorted: Vec<LiveFile>)
    ensures
        in_listing_order(files_view(sorted@)),
        files_view(sorted@).to_multiset() == files_view(files@).to_multiset(),
{
    let mut rest = files;
    let ghost all = files_view(rest@);
    let mut sorted: Vec<LiveFile> = Vec::new();
    proof {
        rest@.to_multiset_ensures();
        assert(files_view(rest@.skip(0)) =~= all);
        assert(files_view(sorted@) =~= Seq::<LiveFileView>::empty());
        assert(files_view(sorted@).to_multiset().add(all.to_multiset()) =~= all.to_multiset()) by {
            files_view(sorted@).to_multiset_ensures();
            assert forall|v: LiveFileView| files_view(sorted@).to_multiset().count(v) == 0 by {
                assert(!files_view(sorted@).contains(v));
            }
        }
    }
    while rest.len() > 0
        invariant
            in_listing_order(files_view(sorted@)),
            files_view(sorted@).to_multiset().add(files_view(rest@).to_multiset())
                == all.to_multiset(),
        decreases rest@.len(),
    {
        let ghost before = files_view(rest@);
        let file = rest.remove(0);
        proof {
            before.to_multiset_ensures();
            assert(files_view(rest@) =~= before.remove(0));
            assert(before[0] == file@);
            assert(before.contains(before[0]));
        }
        let ghost done = files_view(sorted@);
        insert_listed(&mut sorted, file);
        assert(files_view(sorted@).to_multiset().add(files_view(rest@).to_multiset())
            =~= done.to_multiset().add(before.to_multiset()));
    }
    proof {
        let none = files_view(rest@);
        none.to_multiset_ensures();
        assert forall|v: LiveFileView| none.to_multiset().count(v) == 0 by {
            assert(!none.contains(v));
        }
        assert(files_view(sorted@).to_multiset() =~= all.to_multiset());
    }
    sorted
}

fn list_added<C: TextCodec>(
    codec: &C,
    snapshot: Id,
    sequence: i64,
    changes: &Vec<ChangeRow>,
    files: &Vec<FileRecord>,
    listed: &mut Vec<LiveFile>,
) -> (r: Result<(), RuntimeError>)
    requires
        sequence >= 0,
    ensures
        match r {
            Ok(()) => {
                &&& files_view(final(listed)@) == files_view(old(listed)@) + shown_files(
                    added_by(changes@, files@, snapshot),
                    sequence,
                )
                &&& all_listable(*codec, added_by(changes@, files@, snapshot))
            },
            Err(e) => first_unlistable(*codec, added_by(changes@, files@, snapshot), e),
        },
{
    let ghost start = files_view(listed@);
    let mut i: usize = 0;
    assert(files_view(listed@) =~= start + shown_files(
        added_by(changes@.take(0), files@, snapshot),
        sequence,
    ));
    while i < changes.len()
        invariant
            i <= changes@.len(),
            sequence >= 0,
            files_view(listed@) == start + shown_files(
                added_by(changes@.take(i as int), files@, snapshot),
                sequence,
            ),
            all_listable(*codec, added_by(changes@.take(i as int), files@, snapshot)),
        decreases changes@.len() - i,
    {
        let ghost so_far = added_by(changes@.take(i as int), files@, snapshot);
        assert(changes@.take(i + 1).drop_last() =~= changes@.take(i as int));
        let change = &changes[i];
        if change.snapshot_id == snapshot && reads(&change.change_kind, "add") {
            if let Some(file) = find_file(files, &change.file_id) {
                match listed_file(codec, file, sequence) {
                    Err(e) => {
                        proof {
                            let now = added_by(changes@.take(i + 1), files@, snapshot);
                            assert(now.last() == *file);
                            lemma_added_grows(changes@, files@, snapshot, i + 1);
                            let all = added_by(changes@, files@, snapshot);
                            assert(all.take(now.len() as int)[now.len() - 1] == *file);
                            assert(all[now.len() - 1] == *file);
                            assert(all.take(now.len() - 1) =~= so_far);
                            assert(unlistable_at(*codec, all, now.len() - 1, e));
                        }
                        return Err(e);
                    },
                    Ok(file) => {
                        let ghost before = files_view(listed@);
                        listed.push(file);
                        assert(files_view(listed@) =~= before.push(file@));
                    },
                }
            }
        }
        i = i + 1;
        assert(files_view(listed@) =~= start + shown_files(
            added_by(changes@.take(i as int), files@, snapshot),
            sequence,
        ));
    }
    assert(changes@.take(i as int) =~= changes@);
    Ok(())
}

proof fn lemma_added_grows(
    changes: Seq<ChangeRow>,
    files: Seq<FileRecord>,
    snapshot: Id,
    n: int,
)
    requires
        0 <= n <= changes.len(),
    ensures
        added_by(changes.take(n), files, snapshot).len() <= added_by(
            changes,
            files,
            snapshot,
        ).len(),
        added_by(changes, files, snapshot).take(
            added_by(changes.take(n), files, snapshot).len() as int,
        ) == added_by(changes.take(n), files, snapshot),
    decreases changes.len() - n,
{
    if n == changes.len() {
        assert(changes.take(n) =~= changes);
    } else {
        lemma_added_grows(changes, files, snapshot, n + 1);
        assert(changes.take(n + 1).drop_last() =~= changes.take(n));
    }
    let all = added_by(changes, files, snapshot);
    let part = added_by(changes.take(n), files, snapshot);
    assert(all.take(part.len() as int) =~= part);
}

/// The files of a snapshot: those that it and its ancestors add.
pub fn snapshot_files<C: TextCodec>(
    codec: &C,
    records: &Vec<SnapshotRecord>,
    changes: &Vec<ChangeRow>,
    files: &Vec<FileRecord>,
    snapshot: Option<Id>,
) -> (r: Result<Vec<LiveFile>, RuntimeError>)
    ensures
        ({
            let chain = lineage(
                Walk::History,
                rows_of(records@),
                snapshot,
                Seq::empty(),
                u64::MAX as int,
            );
            match r {
                Ok(listed) => {
                    &&& chain is Ok
                    &&& in_listing_order(files_view(listed@))
                    &&& files_view(listed@).to_multiset() == added_along(
                        chain->Ok_0,
                        changes@,
                        files@,
                        records@,
                    ).to_multiset()
                },
                Err(e) => {
                    ||| ancestry_outcome(
                        *codec,
                        records@,
                        snapshot,
                        Seq::empty(),
                        u64::MAX as int,
                        Err(e),
                    )
                    ||| {
                        &&& chain is Ok
                        &&& ancestry_outcome(
                            *codec,
                            records@,
                            snapshot,
                            Seq::empty(),
                            u64::MAX as int,
                            Ok(chain->Ok_0),
                        )
                        &&& first_unlistable(
                            *codec,
                            files_along(chain->Ok_0, changes@, files@),
                            e,
                        )
                    }
                },
            }
        }),
{
    let chain: Vec<Id> = match described_ancestry(codec, records, snapshot) {
        Err(e) => {
            return Err(e);
        },
        Ok(chain) => chain,
    };
    let mut listed: Vec<LiveFile> = Vec::new();
    let mut i: usize = 0;
    assert(files_view(listed@) =~= added_along(chain@.take(0), changes@, files@, records@));
    let ghost plan = lineage(
        Walk::History,
        rows_of(records@),
        snapshot,
        Seq::empty(),
        u64::MAX as int,
    );
    proof {
        lemma_lineage_natural(rows_of(records@), snapshot, Seq::empty(), u64::MAX as int);
    }
    while i < chain.len()
        invariant
            i <= chain@.len(),
            plan == lineage(
                Walk::History,
                rows_of(records@),
                snapshot,
                Seq::empty(),
                u64::MAX as int,
            ),
            plan == Ok::<Seq<Id>, ErrorView>(chain@),
            forall|k: int|
                0 <= k < chain@.len() ==> (snapshot_of(
                    rows_of(records@),
                    #[trigger] chain@[k],
                ) matches Some(row) && row.sequence_number >= 0),
            files_view(listed@) == added_along(
                chain@.take(i as int),
                changes@,
                files@,
                records@,
            ),
            all_listable(*codec, files_along(chain@.take(i as int), changes@, files@)),
            ancestry_outcome(
                *codec,
                records@,
                snapshot,
                Seq::empty(),
                u64::MAX as int,
                Ok(chain@),
            ),
        decreases chain@.len() - i,
    {
        assert(chain@.take(i + 1).drop_last() =~= chain@.take(i as int));
        let id: Id = chain[i];
        proof {
            lemma_record_row(records@, id);
        }
        let record = match find_record(records, &id) {
            None => {
                return Err(corrupt("dangling snapshot ancestry"));
            },
            Some(record) => record,
        };
        let sequence: i64 = record.row.sequence_number;
        assert(sequence >= 0);
        if let Err(e) = list_added(codec, id, sequence, changes, files, &mut listed) {
            proof {
                lemma_unlistable_join(
                    *codec,
                    files_along(chain@.take(i as int), changes@, files@),
                    added_by(changes@, files@, id),
                    e,
                );
                lemma_unlistable_along(*codec, chain@, changes@, files@, i + 1, e);
            }
            return Err(e);
        }
        proof {
            lemma_listable_join(
                *codec,
                files_along(chain@.take(i as int), changes@, files@),
                added_by(changes@, files@, id),
            );
        }
        i = i + 1;
        assert(chain@.take(i as int).last() == id);
    }
    assert(chain@.take(i as int) =~= chain@);
    Ok(sort_files(listed))
}

proof fn lemma_lineage_natural(rows: Seq<SnapshotRow>, tip: Option<Id>, seen: Seq<Id>, last: int)
    requires
        forall|i: int|
            0 <= i < seen.len() ==> (snapshot_of(rows, #[trigger] seen[i]) matches Some(row)
                && row.sequence_number >= 0),
    ensures
        lineage(Walk::History, rows, tip, seen, last) matches Ok(chain) ==> forall|i: int|
            0 <= i < chain.len() ==> (snapshot_of(rows, #[trigger] chain[i]) matches Some(row)
                && row.sequence_number >= 0),
    decreases last,
{
    if let Some(id) = tip {
        if !seen.contains(id) {
            if let Some(row) = snapshot_of(rows, id) {
                if 0 <= row.sequence_number < last {
                    lemma_lineage_natural(
                        rows,
                        row.parent_snapshot_id,
                        seen.push(id),
                        row.sequence_number as int,
                    );
                }
            }
        }
    }
}

/// How many branches have a name.
pub open spec fn branches_named(refs: Seq<RefRow>, name: Seq<char>) -> nat
    decreases refs.len(),
{
    if refs.len() == 0 {
        0
    } else if refs.last().name@ == name && refs.last().ref_type is Branch {
        branches_named(refs.drop_last(), name) + 1
    } else {
        branches_named(refs.drop_last(), name)
    }
}

fn count_branches(refs: &Vec<RefRow>, name: &String) -> (n: usize)
    ensures
        n == branches_named(refs@, name@),
{
    let mut n: usize = 0;
    let mut i: usize = 0;
    while i < refs.len()
        invariant
            i <= refs@.len(),
            n <= i,
            n == branches_named(refs@.take(i as int), name@),
        decreases refs@.len() - i,
    {
        assert(refs@.take(i + 1).drop_last() =~= refs@.take(i as int));
        let branch: bool = match refs[i].ref_type {
            RefType::Branch => true,
            RefType::Tag => false,
        };
        if refs[i].name == *name && branch {
            n = n + 1;
        }
        i = i + 1;
    }
    assert(refs@.take(i as int) =~= refs@);
    n
}

/// A live row of a branch, with its file.
pub open spec fn is_live(row: LiveRow, files: Seq<FileRecord>, name: Seq<char>) -> bool {
    row.ref_name@ == name && file_of(files, row.file_id) is Some
}

/// The live files of a branch, in the order of their rows.
pub open spec fn live_on(live: Seq<LiveRow>, files: Seq<FileRecord>, name: Seq<char>) -> Seq<
    LiveFileView,
>
    decreases live.len(),
{
    if live.len() == 0 {
        Seq::empty()
    } else if is_live(live.last(), files, name) {
        live_on(live.drop_last(), files, name).push(
            shown_file(
                file_of(files, live.last().file_id)->0,
                live.last().file_sequence_number,
            ),
        )
    } else {
        live_on(live.drop_last(), files, name)
    }
}

/// A live file that cannot be listed, and why: the first of its faults.
pub open spec fn unlistable_live<C: TextCodec>(
    codec: C,
    row: LiveRow,
    file: FileRecord,
    e: RuntimeError,
) -> bool {
    ||| uri_refused(codec, file.uri, e)
    ||| uri_accepted(codec, file.uri) && if file.file_size_bytes < 0 {
        e@ == ErrorView::Corrupt("negative "@ + "file size"@)
    } else if file.record_count < 0 {
        e@ == ErrorView::Corrupt("negative "@ + "record count"@)
    } else {
        row.file_sequence_number < 0 && e@ == ErrorView::Corrupt("negative "@ + "sequence number"@)
    }
}

pub open spec fn listable_live<C: TextCodec>(codec: C, row: LiveRow, file: FileRecord) -> bool {
    &&& uri_accepted(codec, file.uri)
    &&& file.file_size_bytes >= 0
    &&& file.record_count >= 0
    &&& row.file_sequence_number >= 0
}

/// The first live row of a branch whose file cannot be listed is the one at `i`.
pub open spec fn unlistable_row<C: TextCodec>(
    codec: C,
    live: Seq<LiveRow>,
    files: Seq<FileRecord>,
    name: Seq<char>,
    i: int,
    e: RuntimeError,
) -> bool {
    &&& is_live(live[i], files, name)
    &&& unlistable_live(codec, live[i], file_of(files, live[i].file_id)->0, e)
    &&& live_listable(codec, live.take(i), files, name)
}

pub open spec fn live_listable<C: TextCodec>(
    codec: C,
    live: Seq<LiveRow>,
    files: Seq<FileRecord>,
    name: Seq<char>,
) -> bool {
    forall|k: int|
        0 <= k < live.len() && is_live(#[trigger] live[k], files, name) ==> listable_live(
            codec,
            live[k],
            file_of(files, live[k].file_id)->0,
        )
}

/// The numbers of a live file.
fn live_numbers<C: TextCodec>(codec: &C, row: &LiveRow, file: &FileRecord) -> (r: Result<
    (u64, u64, u64),
    RuntimeError,
>)
    ensures
        match r {
            Ok((size, count, sequence)) => {
                &&& listable_live(*codec, *row, *file)
                &&& size == file.file_size_bytes
                &&& count == file.record_count
                &&& sequence == row.file_sequence_number
            },
            Err(e) => unlistable_live(*codec, *row, *file, e),
        },
{
    let verdict = codec.check_uri(&file.uri);
    if let Err(e) = verdict {
        return Err(e);
    }
    assert(uri_accepted(*codec, file.uri));
    let file_size_bytes: u64 = nonnegative(file.file_size_bytes, "file size")?;
    let record_count: u64 = nonnegative(file.record_count, "record count")?;
    let sequence_number: u64 = nonnegative(row.file_sequence_number, "sequence number")?;
    Ok((file_size_bytes, record_count, sequence_number))
}

/// The live files of a branch.
pub fn branch_files<C: TextCodec>(
    codec: &C,
    refs: &Vec<RefRow>,
    live: &Vec<LiveRow>,
    files: &Vec<FileRecord>,
    name: &String,
) -> (r: Result<Vec<LiveFile>, RuntimeError>)
    ensures
        match r {
            Ok(listed) => {
                &&& branches_named(refs@, name@) == 1
                &&& in_listing_order(files_view(listed@))
                &&& files_view(listed@).to_multiset() == live_on(
                    live@,
                    files@,
                    name@,
                ).to_multiset()
            },
            Err(e) => if branches_named(refs@, name@) != 1 {
                e@ == ErrorView::RefNotFound(name@)
            } else {
                exists|i: int|
                    0 <= i < live@.len() && #[trigger] unlistable_row(
                        *codec,
                        live@,
                        files@,
                        name@,
                        i,
                        e,
                    )
            },
        },
{
    if count_branches(refs, name) != 1 {
        return Err(RuntimeError::RefNotFound(name.clone()));
    }
    let mut listed: Vec<LiveFile> = Vec::new();
    let mut i: usize = 0;
    assert(files_view(listed@) =~= live_on(live@.take(0), files@, name@));
    while i < live.len()
        invariant
            i <= live@.len(),
            branches_named(refs@, name@) == 1,
            files_view(listed@) == live_on(live@.take(i as int), files@, name@),
            live_listable(*codec, live@.take(i as int), files@, name@),
        decreases live@.len() - i,
    {
        assert(live@.take(i + 1).drop_last() =~= live@.take(i as int));
        let row = &live[i];
        if row.ref_name == *name {
            if let Some(file) = find_file(files, &row.file_id) {
                assert(is_live(live@[i as int], files@, name@));
                let (file_size_bytes, record_count, sequence_number) = match live_numbers(
                    codec,
                    row,
                    file,
                ) {
                    Err(e) => {
                        assert(unlistable_row(*codec, live@, files@, name@, i as int, e));
                        return Err(e);
                    },
                    Ok(numbers) => numbers,
                };
                let ghost before = files_view(listed@);
                listed.push(
                    LiveFile {
                        file_id: file.file_id,
                        uri: file.uri.clone(),
                        file_format: file.file_format.clone(),
                        file_size_bytes,
                        record_count,
                        content_sha256: file.content_sha256,
                        sequence_number,
                    },
                );
                assert(files_view(listed@) =~= before.push(
                    shown_file(*file, row.file_sequence_number),
                ));
            }
        }
        proof {
            let seen = live@.take(i + 1);
            assert forall|k: int|
                0 <= k < seen.len() && is_live(
                    #[trigger] seen[k],
                    files@,
                    name@,
                ) implies listable_live(*codec, seen[k], file_of(files@, seen[k].file_id)->0) by {
                if k < i {
                    assert(seen[k] == live@.take(i as int)[k]);
                }
            }
        }
        i = i + 1;
    }
    assert(live@.take(i as int) =~= live@);
    Ok(sort_files(listed))
}

/// The first commit that cannot be listed is the one at `i`, for this reason.
pub open spec fn commit_unlistable<C: TextCodec>(
    codec: C,
    commits: Seq<CommitRow>,
    i: int,
    e: RuntimeError,
) -> bool {
    &&& if commits[i].table_version < 0 {
        e@ == ErrorView::Corrupt("negative table version"@)
    } else {
        uri_refused(codec, commits[i].uri, e)
    }
    &&& commits_listable(codec, commits.take(i))
}

pub open spec fn commits_listable<C: TextCodec>(codec: C, commits: Seq<CommitRow>) -> bool {
    forall|k: int|
        0 <= k < commits.len() ==> (#[trigger] commits[k]).table_version >= 0 && uri_accepted(
            codec,
            commits[k].uri,
        )
}

/// The history as its commits tell it, in the order of the rows.
pub fn history_entries<C: TextCodec>(codec: &C, commits: &Vec<CommitRow>) -> (r: Result<
    Vec<HistoryEntry>,
    RuntimeError,
>)
    ensures
        match r {
            Ok(entries) => {
                &&& entries@.len() == commits@.len()
                &&& forall|i: int|
                    0 <= i < commits@.len() ==> {
                        let entry = #[trigger] entries@[i];
                        let commit = commits@[i];
                        &&& entry.table_version == commit.table_version
                        &&& entry.commit_id == commit.commit_id
                        &&& entry.created_at_ms == commit.created_at_ms
                        &&& entry.semantic_state_sha256 == commit.semantic_state
                        &&& entry.commit_object_uri@ == commit.uri@
                    }
            },
            Err(e) => exists|i: int|
                0 <= i < commits@.len() && #[trigger] commit_unlistable(*codec, commits@, i, e),
        },
{
    let mut entries: Vec<HistoryEntry> = Vec::new();
    let mut i: usize = 0;
    while i < commits.len()
        invariant
            i <= commits@.len(),
            entries@.len() == i,
            commits_listable(*codec, commits@.take(i as int)),
            forall|k: int|
                0 <= k < i ==> {
                    let entry = #[trigger] entries@[k];
                    let commit = commits@[k];
                    &&& entry.table_version == commit.table_version
                    &&& entry.commit_id == commit.commit_id
                    &&& entry.created_at_ms == commit.created_at_ms
                    &&& entry.semantic_state_sha256 == commit.semantic_state
                    &&& entry.commit_object_uri@ == commit.uri@
                },
        decreases commits@.len() - i,
    {
        let commit = &commits[i];
        if commit.table_version < 0 {
            let e = corrupt("negative table version");
            assert(commit_unlistable(*codec, commits@, i as int, e));
            return Err(e);
        }
        let verdict = codec.check_uri(&commit.uri);
        if let Err(e) = verdict {
            assert(commit_unlistable(*codec, commits@, i as int, e));
            return Err(e);
        }
        proof {
            assert(uri_accepted(*codec, commit.uri));
            let seen = commits@.take(i + 1);
            assert forall|k: int| 0 <= k < seen.len() implies (#[trigger] seen[k]).table_version
                >= 0 && uri_accepted(*codec, seen[k].uri) by {
                if k < i {
                    assert(seen[k] == commits@.take(i as int)[k]);
                }
            }
        }
        entries.push(
            HistoryEntry {
                table_version: commit.table_version as u64,
                commit_id: commit.commit_id,
                created_at_ms: commit.created_at_ms,
                semantic_state_sha256: commit.semantic_state,
                commit_object_uri: commit.uri.clone(),
            },
        );
        i = i + 1;
    }
    Ok(entries)
}

/// How far a verification goes.
#[derive(Clone, Copy, Debug, PartialEq, Eq, Structural)]
pub enum VerificationScope {
    Current,
    RetainedHistory,
}

/// What a verification does after it has checked a generation.
#[derive(Debug)]
pub enum VerificationStep {
    /// Nothing more is to be checked.
    Finish,
    /// The oldest generation is reached: its commits are followed further back.
    FollowCommits,
    Load(ObjectReference),
}

/// The step after a generation with the given parent.
pub fn verification_step(scope: VerificationScope, parent: &Option<ObjectReference>) -> (step:
    VerificationStep)
    ensures
        match (scope, *parent) {
            (VerificationScope::Current, _) => step is Finish,
            (VerificationScope::RetainedHistory, None) => step is FollowCommits,
            (VerificationScope::RetainedHistory, Some(reference)) => step
                == VerificationStep::Load(reference),
        },
{
    match scope {
        VerificationScope::Current => VerificationStep::Finish,
        VerificationScope::RetainedHistory => match parent {
            None => VerificationStep::FollowCommits,
            Some(reference) => VerificationStep::Load(reference.clone()),
        },
    }
}

/// Adds an identifier to those that were met, unless it was met before.
pub fn note_id(met: &mut Vec<Id>, id: Id)
    ensures
        final(met)@ == if old(met)@.contains(id) {
            old(met)@
        } else {
            old(met)@.push(id)
        },
{
    if !holds_id(met, &id) {
        met.push(id);
    }
}

#[derive(Clone, Copy, Debug)]
pub struct VerificationReport {
    pub scope: VerificationScope,
    pub anchor: HeadAnchor,
    pub completed: bool,
    pub generations_checked: u64,
    pub commits_checked: u64,
    pub snapshots_checked: u64,
    pub objects_checked: u64,
    pub bytes_checked: u64,
}

/// The reference to an address, if one is recorded.
pub open spec fn recorded(references: Seq<ObjectReference>, uri: Seq<char>) -> Option<
    ObjectReference,
>
    decreases references.len(),
{
    if references.len() == 0 {
        None
    } else if references[0].uri@ == uri {
        Some(references[0])
    } else {
        recorded(references.skip(1), uri)
    }
}

proof fn lemma_recorded_push(
    references: Seq<ObjectReference>,
    new: ObjectReference,
    uri: Seq<char>,
)
    ensures
        recorded(references.push(new), uri) == match recorded(references, uri) {
            Some(known) => Some(known),
            None => if new.uri@ == uri {
                Some(new)
            } else {
                None
            },
        },
    decreases references.len(),
{
    reveal_with_fuel(recorded, 2);
    if references.len() == 0 {
        assert(references.push(new).skip(1) =~= Seq::<ObjectReference>::empty());
    } else {
        assert(references.push(new).skip(1) =~= references.skip(1).push(new));
        lemma_recorded_push(references.skip(1), new, uri);
    }
}

fn find_reference<'a>(references: &'a Vec<ObjectReference>, uri: &String) -> (found: Option<
    &'a ObjectReference,
>)
    ensures
        match found {
            Some(known) => recorded(references@, uri@) == Some(*known),
            None => recorded(references@, uri@) is None,
        },
{
    let mut i: usize = 0;
    assert(references@.skip(0) =~= references@);
    while i < references.len()
        invariant
            i <= references@.len(),
            recorded(references@, uri@) == recorded(references@.skip(i as int), uri@),
        decreases references@.len() - i,
    {
        assert(references@.skip(i as int).skip(1) =~= references@.skip(i + 1));
        if references[i].uri == *uri {
            return Some(&references[i]);
        }
        i = i + 1;
    }
    None
}

/// Two references to one address that name different contents.
pub open spec fn disagree(a: ObjectReference, b: ObjectReference) -> bool {
    a.uri@ == b.uri@ && (a.sha256 != b.sha256 || a.length != b.length)
}

/// Records a reference to a file, once for each address.
pub fn record_file_reference(references: &mut Vec<ObjectReference>, reference: ObjectReference) -> (r:
    Result<(), RuntimeError>)
    ensures
        match recorded(old(references)@, reference.uri@) {
            None => {
                &&& r is Ok
                &&& final(references)@ == old(references)@.push(reference)
            },
            Some(known) => {
                &&& final(references)@ == old(references)@
                &&& r is Ok <==> !disagree(known, reference)
                &&& r matches Err(e) ==> e@ == ErrorView::Corrupt(
                    "conflicting object reference: "@ + reference.uri@,
                )
            },
        },
{
    let agrees: Option<bool> = match find_reference(references, &reference.uri) {
        None => None,
        Some(known) => {
            proof {
                lemma_recorded_uri(references@, reference.uri@);
            }
            Some(known.sha256 == reference.sha256 && known.length == reference.length)
        },
    };
    match agrees {
        None => {
            references.push(reference);
            Ok(())
        },
        Some(true) => Ok(()),
        Some(false) => Err(
            RuntimeError::Corrupt(joined("conflicting object reference: ", reference.uri.as_str())),
        ),
    }
}

proof fn lemma_recorded_uri(references: Seq<ObjectReference>, uri: Seq<char>)
    ensures
        recorded(references, uri) matches Some(known) ==> known.uri@ == uri && references.contains(
            known,
        ),
    decreases references.len(),
{
    if references.len() > 0 {
        lemma_recorded_uri(references.skip(1), uri);
        assert(references.contains(references[0]));
        if let Some(known) = recorded(references.skip(1), uri) {
            let k = choose|k: int|
                0 <= k < references.skip(1).len() && references.skip(1)[k] == known;
            assert(references[k + 1] == known);
        }
    }
}

/// Whether a recorded reference covers the content of a file.
pub open spec fn covers(references: Seq<ObjectReference>, file: FileRecord) -> bool {
    &&& file.content_sha256 is Some
    &&& file.file_size_bytes >= 0
    &&& recorded(references, file.uri@) matches Some(known) && known.sha256
        == file.content_sha256->0 && known.length == Some(file.file_size_bytes as u64)
}

/// The first of the things that keep a file's content from being recorded.
pub open spec fn unrecordable<C: TextCodec>(
    codec: C,
    references: Seq<ObjectReference>,
    file: FileRecord,
    e: RuntimeError,
) -> bool {
    ||| uri_refused(codec, file.uri, e)
    ||| uri_accepted(codec, file.uri) && if file.content_sha256 is None {
        e@ == ErrorView::Corrupt("missing content hash"@)
    } else if file.file_size_bytes < 0 {
        e@ == ErrorView::Corrupt("negative "@ + "file length"@)
    } else {
        &&& e@ == ErrorView::Corrupt("conflicting object reference: "@ + file.uri@)
        &&& recorded(references, file.uri@) is Some
        &&& !covers(references, file)
    }
}

fn record_file<C: TextCodec>(
    codec: &C,
    file: &FileRecord,
    references: &mut Vec<ObjectReference>,
) -> (r: Result<(), RuntimeError>)
    ensures
        match r {
            Ok(()) => uri_accepted(*codec, file.uri) && covers(final(references)@, *file) && (
            final(references)@ == old(references)@ || (recorded(old(references)@, file.uri@) is None && final(references)@ == old(
                references,
            )@.push(final(references)@.last()) && final(references)@.last().uri@ == file.uri@)),
            Err(e) => final(references)@ == old(references)@ && unrecordable(
                *codec,
                old(references)@,
                *file,
                e,
            ),
        },
{
    let verdict = codec.check_uri(&file.uri);
    if let Err(e) = verdict {
        return Err(e);
    }
    assert(uri_accepted(*codec, file.uri));
    let sha256: Sha256 = match file.content_sha256 {
        None => {
            return Err(corrupt("missing content hash"));
        },
        Some(sha256) => sha256,
    };
    let length: u64 = nonnegative(file.file_size_bytes, "file length")?;
    let ghost before = references@;
    let reference = ObjectReference {
        uri: file.uri.clone(),
        sha256,
        length: Some(length),
        media_type: None,
    };
    proof {
        lemma_recorded_push(before, reference, file.uri@);
        lemma_recorded_uri(before, file.uri@);
    }
    record_file_reference(references, reference)
}

/// Every recorded address still has its record.
pub open spec fn keeps(before: Seq<ObjectReference>, after: Seq<ObjectReference>) -> bool {
    forall|uri: Seq<char>| #[trigger]
        recorded(before, uri) is Some ==> recorded(after, uri) == recorded(before, uri)
}

/// The content of the files is recorded: each has an address that the protocol
/// accepts and is covered by a record, what was recorded stays, and nothing else is
/// new.
pub open spec fn takes_files<C: TextCodec>(
    codec: C,
    before: Seq<ObjectReference>,
    after: Seq<ObjectReference>,
    files: Seq<FileRecord>,
) -> bool {
    &&& forall|i: int|
        0 <= i < files.len() ==> uri_accepted(codec, (#[trigger] files[i]).uri) && covers(
            after,
            files[i],
        )
    &&& keeps(before, after)
    &&& adds_only(before, after, files)
}

/// The content of the files before `i` is recorded, and that of this one is not.
pub open spec fn unrecordable_at<C: TextCodec>(
    codec: C,
    before: Seq<ObjectReference>,
    files: Seq<FileRecord>,
    i: int,
    held: Seq<ObjectReference>,
    e: RuntimeError,
) -> bool {
    &&& takes_files(codec, before, held, files.take(i))
    &&& unrecordable(codec, held, files[i], e)
}

/// The first of the files whose content cannot be recorded, and why.
pub open spec fn first_unrecordable<C: TextCodec>(
    codec: C,
    before: Seq<ObjectReference>,
    files: Seq<FileRecord>,
    e: RuntimeError,
) -> bool {
    exists|i: int, held: Seq<ObjectReference>|
        0 <= i < files.len() && #[trigger] unrecordable_at(codec, before, files, i, held, e)
}

proof fn lemma_takes_one_more<C: TextCodec>(
    codec: C,
    start: Seq<ObjectReference>,
    before: Seq<ObjectReference>,
    after: Seq<ObjectReference>,
    files: Seq<FileRecord>,
    file: FileRecord,
)
    requires
        takes_files(codec, start, before, files),
        uri_accepted(codec, file.uri),
        covers(after, file),
        after == before || (recorded(before, file.uri@) is None && after == before.push(
            after.last(),
        ) && after.last().uri@ == file.uri@),
    ensures
        takes_files(codec, start, after, files.push(file)),
{
    let now = files.push(file);
    assert(names(now, file.uri@)) by {
        assert(now[files.len() as int].uri@ == file.uri@);
    }
    assert forall|uri: Seq<char>| names(files, uri) implies #[trigger] names(now, uri) by {
        let k = choose|k: int| 0 <= k < files.len() && (#[trigger] files[k]).uri@ == uri;
        assert(now[k].uri@ == uri);
    }
    if after != before {
        let new = after.last();
        assert forall|uri: Seq<char>| #[trigger] recorded(after, uri) == match recorded(
            before,
            uri,
        ) {
            Some(known) => Some(known),
            None => if new.uri@ == uri {
                Some(new)
            } else {
                None
            },
        } by {
            lemma_recorded_push(before, new, uri);
        }
    }
    assert forall|i: int| 0 <= i < now.len() implies uri_accepted(codec, (#[trigger] now[i]).uri)
        && covers(after, now[i]) by {
        if i < files.len() {
            assert(now[i] == files[i]);
            assert(covers(before, files[i]));
        }
    }
    assert forall|uri: Seq<char>| #[trigger] recorded(after, uri) is Some implies recorded(
        start,
        uri,
    ) is Some || names(now, uri) by {
        if recorded(before, uri) is Some && recorded(start, uri) is None {
            assert(names(files, uri));
        }
    }
}

fn record_added<C: TextCodec>(
    codec: &C,
    snapshot: Id,
    changes: &Vec<ChangeRow>,
    files: &Vec<FileRecord>,
    references: &mut Vec<ObjectReference>,
) -> (r: Result<(), RuntimeError>)
    ensures
        match r {
            Ok(()) => takes_files(
                *codec,
                old(references)@,
                final(references)@,
                added_by(changes@, files@, snapshot),
            ),
            Err(e) => first_unrecordable(
                *codec,
                old(references)@,
                added_by(changes@, files@, snapshot),
                e,
            ),
        },
{
    let ghost start = references@;
    let ghost all = added_by(changes@, files@, snapshot);
    let mut i: usize = 0;
    while i < changes.len()
        invariant
            i <= changes@.len(),
            start == old(references)@,
            all == added_by(changes@, files@, snapshot),
            takes_files(
                *codec,
                start,
                references@,
                added_by(changes@.take(i as int), files@, snapshot),
            ),
        decreases changes@.len() - i,
    {
        let ghost so_far = added_by(changes@.take(i as int), files@, snapshot);
        assert(changes@.take(i + 1).drop_last() =~= changes@.take(i as int));
        let change = &changes[i];
        if change.snapshot_id == snapshot && reads(&change.change_kind, "add") {
            if let Some(file) = find_file(files, &change.file_id) {
                let ghost before = references@;
                proof {
                    let now = added_by(changes@.take(i + 1), files@, snapshot);
                    lemma_added_grows(changes@, files@, snapshot, i + 1);
                    assert(now =~= so_far.push(*file));
                    assert(all.take(now.len() as int)[now.len() - 1] == *file);
                    assert(all.take(now.len() - 1) =~= so_far);
                }
                match record_file(codec, file, references) {
                    Err(e) => {
                        assert(unrecordable_at(
                            *codec,
                            start,
                            all,
                            so_far.len() as int,
                            before,
                            e,
                        ));
                        return Err(e);
                    },
                    Ok(()) => {},
                }
                proof {
                    lemma_takes_one_more(*codec, start, before, references@, so_far, *file);
                }
            }
        }
        i = i + 1;
    }
    assert(changes@.take(i as int) =~= changes@);
    Ok(())
}

/// Every address that is newly recorded is that of one of the files.
pub open spec fn adds_only(
    before: Seq<ObjectReference>,
    after: Seq<ObjectReference>,
    files: Seq<FileRecord>,
) -> bool {
    forall|uri: Seq<char>| #[trigger]
        recorded(after, uri) is Some ==> recorded(before, uri) is Some || names(files, uri)
}

/// One of the files has the address.
pub open spec fn names(files: Seq<FileRecord>, uri: Seq<char>) -> bool {
    exists|k: int| 0 <= k < files.len() && (#[trigger] files[k]).uri@ == uri
}

/// Whether a snapshot is the n-th ancestor of one of the starts.
pub open spec fn reached(
    records: Seq<SnapshotRecord>,
    starts: Seq<Id>,
    id: Id,
    n: nat,
) -> bool
    decreases n,
{
    if n == 0 {
        starts.contains(id)
    } else {
        exists|child: Id|
            reached(records, starts, child, (n - 1) as nat) && #[trigger] is_parent(
                records,
                child,
                id,
            )
    }
}

pub open spec fn is_parent(records: Seq<SnapshotRecord>, child: Id, id: Id) -> bool {
    record_of(records, child) matches Some(record) && record.row.parent_snapshot_id == Some(id)
}

/// Whether a snapshot is a start or an ancestor of one.
pub open spec fn reachable(records: Seq<SnapshotRecord>, starts: Seq<Id>, id: Id) -> bool {
    exists|n: nat| #[trigger] reached(records, starts, id, n)
}

/// How many records a walk has not come to.
pub open spec fn unvisited(records: Seq<SnapshotRecord>, seen: Seq<Id>) -> nat
    decreases records.len(),
{
    if records.len() == 0 {
        0
    } else {
        unvisited(records.skip(1), seen) + if seen.contains(records[0].row.snapshot_id) {
            0nat
        } else {
            1nat
        }
    }
}

/// A walk that comes to a snapshot has fewer of the records before it.
pub proof fn lemma_visit(records: Seq<SnapshotRecord>, seen: Seq<Id>, id: Id)
    requires
        !seen.contains(id),
    ensures
        unvisited(records, seen.push(id)) <= unvisited(records, seen),
        record_of(records, id) is Some ==> unvisited(records, seen.push(id)) < unvisited(
            records,
            seen,
        ),
    decreases records.len(),
{
    if records.len() > 0 {
        lemma_visit(records.skip(1), seen, id);
        let first = records[0].row.snapshot_id;
        assert(seen.push(id)[seen.len() as int] == id);
        assert(seen.push(id).contains(id));
        if seen.contains(first) {
            let k = choose|k: int| 0 <= k < seen.len() && seen[k] == first;
            assert(seen.push(id)[k] == first);
        }
    }
}

/// The snapshots that a verification starts from.
pub open spec fn verification_starts(
    scope: VerificationScope,
    refs: Seq<RefRow>,
    records: Seq<SnapshotRecord>,
) -> Seq<Id> {
    match scope {
        VerificationScope::RetainedHistory => Seq::new(
            records.len(),
            |i: int| records[i].row.snapshot_id,
        ),
        VerificationScope::Current => tips(refs),
    }
}

/// The snapshots that refs point to.
pub open spec fn tips(refs: Seq<RefRow>) -> Seq<Id>
    decreases refs.len(),
{
    if refs.len() == 0 {
        Seq::empty()
    } else {
        match refs.last().snapshot_id {
            Some(id) => tips(refs.drop_last()).push(id),
            None => tips(refs.drop_last()),
        }
    }
}

fn starts_of(scope: VerificationScope, refs: &Vec<RefRow>, records: &Vec<SnapshotRecord>) -> (ids:
    Vec<Id>)
    ensures
        ids@ == verification_starts(scope, refs@, records@),
{
    let mut ids: Vec<Id> = Vec::new();
    let mut i: usize = 0;
    match scope {
        VerificationScope::RetainedHistory => {
            while i < records.len()
                invariant
                    i <= records@.len(),
                    ids@.len() == i,
                    forall|k: int| 0 <= k < i ==> #[trigger] ids@[k] == records@[k].row.snapshot_id,
                decreases records@.len() - i,
            {
                ids.push(records[i].row.snapshot_id);
                i = i + 1;
            }
            assert(ids@ =~= verification_starts(scope, refs@, records@));
        },
        VerificationScope::Current => {
            assert(ids@ =~= tips(refs@.take(0)));
            while i < refs.len()
                invariant
                    i <= refs@.len(),
                    ids@ == tips(refs@.take(i as int)),
                decreases refs@.len() - i,
            {
                assert(refs@.take(i + 1).drop_last() =~= refs@.take(i as int));
                if let Some(id) = refs[i].snapshot_id {
                    ids.push(id);
                }
                i = i + 1;
            }
            assert(refs@.take(i as int) =~= refs@);
        },
    }
    ids
}

/// What the snapshots that a verification came to have in common.
pub open spec fn visited(
    records: Seq<SnapshotRecord>,
    changes: Seq<ChangeRow>,
    files: Seq<FileRecord>,
    starts: Seq<Id>,
    before: Seq<Id>,
    after: Seq<Id>,
    known: Seq<ObjectReference>,
    references: Seq<ObjectReference>,
) -> bool {
    &&& before.len() <= after.len()
    &&& after.take(before.len() as int) == before
    &&& forall|i: int, j: int|
        #![trigger after[i], after[j]]
        0 <= i < j < after.len() && before.len() <= j ==> after[i] != after[j]
    &&& forall|k: int|
        before.len() <= k < after.len() ==> {
            &&& reachable(records, starts, #[trigger] after[k])
            &&& record_of(records, after[k]) is Some
        }
    &&& forall|k: int, file: FileRecord|
        #![trigger added_by(changes, files, after[k]).contains(file)]
        before.len() <= k < after.len() && added_by(changes, files, after[k]).contains(file)
            ==> covers(references, file)
    &&& keeps(known, references)
}

/// Every start is in, and so is the parent of each snapshot that is new.
pub open spec fn complete(
    records: Seq<SnapshotRecord>,
    starts: Seq<Id>,
    before: Seq<Id>,
    after: Seq<Id>,
) -> bool {
    &&& forall|i: int| 0 <= i < starts.len() ==> after.contains(#[trigger] starts[i])
    &&& forall|k: int|
        before.len() <= k < after.len() ==> {
            record_of(records, #[trigger] after[k])->0.row.parent_snapshot_id matches Some(parent)
                ==> after.contains(parent)
        }
}

/// The walk of a verification over the snapshots that wait for it, the last first:
/// each that was not met before is described, its parent waits next, and the
/// content of its files is recorded. The walk ends with all of it, or at the first
/// snapshot that is missing, cannot be described or adds a file whose content
/// cannot be recorded.
pub open spec fn collect_outcome<C: TextCodec>(
    codec: C,
    records: Seq<SnapshotRecord>,
    changes: Seq<ChangeRow>,
    files: Seq<FileRecord>,
    waiting: Seq<Id>,
    met: Seq<Id>,
    references: Seq<ObjectReference>,
    r: Result<(Seq<Id>, Seq<ObjectReference>), RuntimeError>,
) -> bool
    decreases unvisited(records, met), waiting.len(),
{
    if waiting.len() == 0 {
        r == Ok::<(Seq<Id>, Seq<ObjectReference>), RuntimeError>((met, references))
    } else {
        let id = waiting.last();
        let rest = waiting.drop_last();
        if met.contains(id) {
            collect_outcome(codec, records, changes, files, rest, met, references, r)
        } else {
            match record_of(records, id) {
                None => r matches Err(e) && e@ == ErrorView::SnapshotNotFound,
                Some(record) => {
                    proof {
                        lemma_visit(records, met, id);
                    }
                    let next = match record.row.parent_snapshot_id {
                        Some(parent) => rest.push(parent),
                        None => rest,
                    };
                    let added = added_by(changes, files, id);
                    ||| r matches Err(e) && unreadable(codec, record, e)
                    ||| readable(codec, record) && (r matches Err(e) && first_unrecordable(
                        codec,
                        references,
                        added,
                        e,
                    ))
                    ||| readable(codec, record) && exists|held: Seq<ObjectReference>|
                        #[trigger] takes_files(codec, references, held, added)
                            && collect_outcome(
                            codec,
                            records,
                            changes,
                            files,
                            next,
                            met.push(id),
                            held,
                            r,
                        )
                },
            }
        }
    }
}

/// Visits the snapshots of an image that no other image has shown yet, and
/// records the content of every file that they add.
pub fn collect_snapshot_files<C: TextCodec>(
    codec: &C,
    scope: VerificationScope,
    refs: &Vec<RefRow>,
    records: &Vec<SnapshotRecord>,
    changes: &Vec<ChangeRow>,
    files: &Vec<FileRecord>,
    snapshots: &mut Vec<Id>,
    references: &mut Vec<ObjectReference>,
) -> (r: Result<(), RuntimeError>)
    ensures
        ({
            let starts = verification_starts(scope, refs@, records@);
            match r {
                Ok(()) => {
                    &&& visited(
                        records@,
                        changes@,
                        files@,
                        starts,
                        old(snapshots)@,
                        final(snapshots)@,
                        old(references)@,
                        final(references)@,
                    )
                    &&& complete(records@, starts, old(snapshots)@, final(snapshots)@)
                    &&& collect_outcome(
                        *codec,
                        records@,
                        changes@,
                        files@,
                        starts,
                        old(snapshots)@,
                        old(references)@,
                        Ok((final(snapshots)@, final(references)@)),
                    )
                },
                Err(e) => collect_outcome(
                    *codec,
                    records@,
                    changes@,
                    files@,
                    starts,
                    old(snapshots)@,
                    old(references)@,
                    Err(e),
                ),
            }
        }),
{
    let mut pending: Vec<Id> = starts_of(scope, refs, records);
    let ghost starts = pending@;
    let ghost before = snapshots@;
    let ghost known = references@;
    proof {
        assert(before.take(before.len() as int) =~= before);
        assert forall|k: int| 0 <= k < pending@.len() implies reachable(
            records@,
            starts,
            #[trigger] pending@[k],
        ) by {
            assert(reached(records@, starts, pending@[k], 0));
        }
    }
    while pending.len() > 0
        invariant
            starts == verification_starts(scope, refs@, records@),
            before == old(snapshots)@,
            known == old(references)@,
            forall|r: Result<(Seq<Id>, Seq<ObjectReference>), RuntimeError>| #[trigger]
                collect_outcome(
                    *codec,
                    records@,
                    changes@,
                    files@,
                    pending@,
                    snapshots@,
                    references@,
                    r,
                ) ==> collect_outcome(
                    *codec,
                    records@,
                    changes@,
                    files@,
                    starts,
                    before,
                    known,
                    r,
                ),
            visited(
                records@,
                changes@,
                files@,
                starts,
                before,
                snapshots@,
                known,
                references@,
            ),
            forall|k: int|
                0 <= k < pending@.len() ==> reachable(records@, starts, #[trigger] pending@[k]),
            forall|i: int|
                0 <= i < starts.len() ==> snapshots@.contains(#[trigger] starts[i])
                    || pending@.contains(starts[i]),
            forall|k: int|
                before.len() <= k < snapshots@.len() ==> {
                    record_of(records@, #[trigger] snapshots@[k])->0.row.parent_snapshot_id matches Some(
                        parent,
                    ) ==> snapshots@.contains(parent) || pending@.contains(parent)
                },
        decreases unvisited(records@, snapshots@), pending@.len(),
    {
        let ghost waiting = pending@;
        let ghost seen = snapshots@;
        let ghost held = references@;
        let id: Id = pending.pop().unwrap();
        proof {
            assert(waiting[waiting.len() - 1] == id);
            assert(pending@ =~= waiting.drop_last());
            assert forall|other: Id| #[trigger] waiting.contains(other) && other
                != id implies pending@.contains(other) by {
                let k = choose|k: int| 0 <= k < waiting.len() && waiting[k] == other;
                assert(pending@[k] == other);
            }
        }
        if holds_id(snapshots, &id) {
            proof {
                assert forall|r: Result<(Seq<Id>, Seq<ObjectReference>), RuntimeError>| #[trigger]
                    collect_outcome(
                        *codec,
                        records@,
                        changes@,
                        files@,
                        pending@,
                        snapshots@,
                        references@,
                        r,
                    ) implies collect_outcome(
                    *codec,
                    records@,
                    changes@,
                    files@,
                    starts,
                    before,
                    known,
                    r,
                ) by {
                    assert(collect_outcome(
                        *codec,
                        records@,
                        changes@,
                        files@,
                        waiting,
                        seen,
                        held,
                        r,
                    ));
                }
            }
            continue ;
        }
        proof {
            lemma_visit(records@, seen, id);
            lemma_record_row(records@, id);
        }
        let d = match descriptor(codec, records, &id) {
            Err(e) => {
                assert(collect_outcome(
                    *codec,
                    records@,
                    changes@,
                    files@,
                    waiting,
                    seen,
                    held,
                    Err::<(Seq<Id>, Seq<ObjectReference>), RuntimeError>(e),
                ));
                return Err(e);
            },
            Ok(d) => d,
        };
        assert(readable(*codec, record_of(records@, id)->0));
        snapshots.push(id);
        let ghost rest = pending@;
        if let Some(parent) = d.parent_snapshot_id {
            proof {
                let n = choose|n: nat| #[trigger] reached(records@, starts, id, n);
                let next = (n + 1) as nat;
                assert(is_parent(records@, id, parent));
                assert(reached(records@, starts, id, (next - 1) as nat));
                assert(reached(records@, starts, parent, next));
            }
            pending.push(parent);
            assert(pending@[rest.len() as int] == parent);
        }
        if let Err(e) = record_added(codec, id, changes, files, references) {
            assert(collect_outcome(
                *codec,
                records@,
                changes@,
                files@,
                waiting,
                seen,
                held,
                Err::<(Seq<Id>, Seq<ObjectReference>), RuntimeError>(e),
            ));
            return Err(e);
        }
        proof {
            let added = added_by(changes@, files@, id);
            assert(takes_files(*codec, held, references@, added));
            assert forall|file: FileRecord| #[trigger] added.contains(file) implies covers(
                references@,
                file,
            ) by {
                let k = choose|k: int| 0 <= k < added.len() && added[k] == file;
                assert(covers(references@, added[k]));
            }
            assert forall|r: Result<(Seq<Id>, Seq<ObjectReference>), RuntimeError>| #[trigger]
                collect_outcome(
                    *codec,
                    records@,
                    changes@,
                    files@,
                    pending@,
                    snapshots@,
                    references@,
                    r,
                ) implies collect_outcome(
                *codec,
                records@,
                changes@,
                files@,
                starts,
                before,
                known,
                r,
            ) by {
                assert(collect_outcome(
                    *codec,
                    records@,
                    changes@,
                    files@,
                    waiting,
                    seen,
                    held,
                    r,
                ));
            }
            assert(snapshots@[seen.len() as int] == id);
            assert forall|other: Id| #[trigger] seen.contains(other) implies snapshots@.contains(
                other,
            ) by {
                let k = choose|k: int| 0 <= k < seen.len() && seen[k] == other;
                assert(snapshots@[k] == other);
            }
            assert forall|other: Id| #[trigger] rest.contains(other) implies pending@.contains(
                other,
            ) by {
                let k = choose|k: int| 0 <= k < rest.len() && rest[k] == other;
                assert(pending@[k] == other);
            }
            assert(snapshots@.contains(id));
            assert(snapshots@.take(before.len() as int) =~= before) by {
                assert(seen.take(before.len() as int) =~= before);
            }
            assert forall|k: int, file: FileRecord|
                #![trigger added_by(changes@, files@, snapshots@[k]).contains(file)]
                before.len() <= k < snapshots@.len() && added_by(
                    changes@,
                    files@,
                    snapshots@[k],
                ).contains(file) implies covers(references@, file) by {
                if k < seen.len() {
                    assert(seen[k] == snapshots@[k]);
                    assert(covers(held, file));
                }
            }
            assert(keeps(known, references@)) by {
                assert forall|uri: Seq<char>| #[trigger] recorded(
                    known,
                    uri,
                ) is Some implies recorded(references@, uri) == recorded(known, uri) by {
                    assert(recorded(held, uri) == recorded(known, uri));
                }
            }
            assert forall|i: int, j: int|
                #![trigger snapshots@[i], snapshots@[j]]
                0 <= i < j < snapshots@.len() && before.len() <= j implies snapshots@[i]
                != snapshots@[j] by {
                assert(seen[i] == snapshots@[i]);
                if j < seen.len() {
                    assert(seen[j] == snapshots@[j]);
                }
            }
            assert forall|k: int| before.len() <= k < snapshots@.len() implies {
                record_of(records@, #[trigger] snapshots@[k])->0.row.parent_snapshot_id matches Some(
                    parent,
                ) ==> snapshots@.contains(parent) || pending@.contains(parent)
            } by {
                if k < seen.len() {
                    assert(seen[k] == snapshots@[k]);
                }
            }
        }
    }
    assert(collect_outcome(
        *codec,
        records@,
        changes@,
        files@,
        pending@,
        snapshots@,
        references@,
        Ok::<(Seq<Id>, Seq<ObjectReference>), RuntimeError>((snapshots@, references@)),
    ));
    Ok(())
}

} // verus!

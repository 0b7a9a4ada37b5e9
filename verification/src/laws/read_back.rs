//! What a reader makes of the rows that a writer stored: the table, its commits, its
//! refs and its snapshots.
use crate::cells::{cells_view, id_refused, Cell, CellView, IdRule};
use crate::documents::{Generation, ObjectReference, SemanticCommit};
use crate::error::{ErrorView, RuntimeError};
use crate::hash::{lemma_same_digest, lemma_same_id, Id};
use crate::history::{SnapshotDescriptor, TextCodec};
use crate::laws::checked_documents::{lemma_same_texts, same_texts};
use crate::laws::listed_files::blob;
use crate::reader_meta::{
    check_checkpoint_identity, check_identity, check_setting, check_snapshot_age,
    check_snapshot_sequence, read_meta, read_ref, read_sequence, read_snapshot,
    validate_commit_row, CommitTexts, FeatureCodec, Meta, RefChoice,
};
use crate::tables::{CommitRow, MetaRow, SnapshotRecord};
use vstd::prelude::*;

verus! {

pub open spec fn id_cell(id: Option<Id>) -> CellView {
    match id {
        None => CellView::Null,
        Some(id) => CellView::Blob(id@),
    }
}

/// The row that describes a table, as it is read.
pub open spec fn meta_row(meta: MetaRow) -> Seq<CellView> {
    seq![
        CellView::Text(meta.protocol@),
        CellView::Text(meta.protocol_version@),
        blob(meta.table_id@),
        CellView::Integer(meta.table_version),
        blob(meta.semantic_state@),
        blob(meta.last_commit_id@),
        blob(meta.last_commit_sha256@),
        CellView::Integer(meta.current_schema_id),
        CellView::Integer(meta.last_sequence_number),
        CellView::Integer(meta.default_partition_spec_id),
        CellView::Integer(meta.default_sort_order_id),
        CellView::Text(meta.reader_features_json@),
        CellView::Text(meta.writer_features_json@),
    ]
}

/// The row of a snapshot, as it is read.
pub open spec fn snapshot_row(record: SnapshotRecord) -> Seq<CellView> {
    seq![
        id_cell(record.row.parent_snapshot_id),
        CellView::Integer(record.row.sequence_number),
        CellView::Integer(record.committed_table_version),
        CellView::Integer(record.schema_id),
        CellView::Integer(record.partition_spec_id),
        CellView::Integer(record.sort_order_id),
        CellView::Text(record.operation@),
        CellView::Integer(record.committed_at_ms),
        CellView::Text(record.summary_json@),
        CellView::Text(record.metadata_json@),
    ]
}

/// The row of a commit, as it is read.
pub open spec fn commit_row(row: CommitRow) -> Seq<CellView> {
    seq![
        blob(row.commit_id@),
        blob(row.semantic_state@),
        CellView::Text(row.uri@),
        blob(row.sha256@),
        match row.parent_table_version {
            None => CellView::Null,
            Some(n) => CellView::Integer(n),
        },
        CellView::Integer(row.intent_count),
        CellView::Text(row.operation_json@),
        CellView::Text(row.result_json@),
        CellView::Text(row.metadata_json@),
    ]
}

/// One row was read, with these values.
pub open spec fn is_row(rows: Vec<Vec<Cell>>, values: Seq<CellView>) -> bool {
    rows@.len() == 1 && cells_view(rows@[0]@) == values
}

/// A table is read as it was stored: its identity, its version and state, its last
/// commit, its current schema and its last sequence number; and only where it is of
/// this protocol, unpartitioned and unsorted.
pub proof fn lemma_table_is_read<C: IdRule + FeatureCodec>(
    codec: C,
    row: MetaRow,
    rows: Vec<Vec<Cell>>,
    r: Result<Meta, RuntimeError>,
)
    requires
        is_row(rows, meta_row(row)),
        call_ensures(read_meta::<C>, (&codec, &rows), r),
    ensures
        r matches Ok(meta) ==> {
            &&& meta.table == row.table_id
            &&& meta.version == row.table_version
            &&& meta.state == row.semantic_state
            &&& meta.commit == row.last_commit_id
            &&& meta.commit_hash == row.last_commit_sha256
            &&& meta.schema == row.current_schema_id
            &&& meta.sequence == row.last_sequence_number
            &&& row.protocol@ == "otmp"@
            &&& row.protocol_version@ == "0.0.2-alpha"@
            &&& row.default_partition_spec_id == 0
            &&& row.default_sort_order_id == 0
            &&& exists|text: String|
                text@ == row.reader_features_json@ && #[trigger] call_ensures(
                    C::parse_features,
                    (&codec, &text),
                    Ok::<Vec<String>, RuntimeError>(meta.readers),
                )
            &&& exists|text: String|
                text@ == row.writer_features_json@ && #[trigger] call_ensures(
                    C::parse_features,
                    (&codec, &text),
                    Ok::<Vec<String>, RuntimeError>(meta.writers),
                )
        },
{
    if let Ok(meta) = r {
        let cells = cells_view(rows@[0]@);
        assert(crate::reader_meta::meta_profile(cells));
        assert(crate::reader_meta::meta_is(codec, meta, cells));
        lemma_same_id(meta.table, row.table_id);
        lemma_same_digest(meta.state, row.semantic_state);
        lemma_same_id(meta.commit, row.last_commit_id);
        lemma_same_digest(meta.commit_hash, row.last_commit_sha256);
        let a = choose|text: String|
            crate::reader_rows::is_text(cells[11], text@) && #[trigger] call_ensures(
                C::parse_features,
                (&codec, &text),
                Ok::<Vec<String>, RuntimeError>(meta.readers),
            );
        assert(a@ == row.reader_features_json@);
        let b = choose|text: String|
            crate::reader_rows::is_text(cells[12], text@) && #[trigger] call_ensures(
                C::parse_features,
                (&codec, &text),
                Ok::<Vec<String>, RuntimeError>(meta.writers),
            );
        assert(b@ == row.writer_features_json@);
    }
}

/// A snapshot is read as it was stored; and only where it is an append without
/// partitions or order, with a positive sequence number, version and schema.
pub proof fn lemma_snapshot_is_read<C: IdRule + TextCodec>(
    codec: C,
    record: SnapshotRecord,
    id: Id,
    rows: Vec<Vec<Cell>>,
    r: Result<SnapshotDescriptor, RuntimeError>,
)
    requires
        is_row(rows, snapshot_row(record)),
        call_ensures(read_snapshot::<C>, (&codec, id, &rows), r),
    ensures
        r matches Ok(d) ==> {
            &&& d.snapshot_id == id
            &&& d.parent_snapshot_id == record.row.parent_snapshot_id
            &&& d.sequence_number == record.row.sequence_number
            &&& d.committed_table_version == record.committed_table_version
            &&& d.schema_id == record.schema_id
            &&& d.operation@ == record.operation@
            &&& d.committed_at_ms == record.committed_at_ms
            &&& record.operation@ == "append"@
            &&& record.row.sequence_number > 0
            &&& record.committed_table_version > 0
            &&& record.schema_id > 0
            &&& record.partition_spec_id == 0
            &&& record.sort_order_id == 0
        },
{
    if let Ok(d) = r {
        let cells = cells_view(rows@[0]@);
        assert(crate::reader_meta::snapshot_is(codec, d, cells));
        if let Some(parent) = d.parent_snapshot_id {
            if let Some(stored) = record.row.parent_snapshot_id {
                lemma_same_id(parent, stored);
            }
        }
    }
}

/// No row is no snapshot.
pub proof fn lemma_missing_snapshot<C: IdRule + TextCodec>(
    codec: C,
    id: Id,
    rows: Vec<Vec<Cell>>,
    r: Result<SnapshotDescriptor, RuntimeError>,
)
    requires
        rows@.len() == 0,
        call_ensures(read_snapshot::<C>, (&codec, id, &rows), r),
    ensures
        r matches Err(e) && e@ is SnapshotNotFound,
{
}

/// A ref is read as it was stored: a branch or a tag, with its snapshot. A tag without
/// one is refused; otherwise only the rule for identifiers can speak against it. No
/// row is no ref.
pub proof fn lemma_ref_is_read<C: IdRule>(
    codec: C,
    name: String,
    rows: Vec<Vec<Cell>>,
    kind: Seq<char>,
    snapshot: Option<Id>,
    r: Result<RefChoice, RuntimeError>,
)
    requires
        call_ensures(read_ref::<C>, (&codec, &name, &rows), r),
    ensures
        rows@.len() == 0 ==> (r matches Err(e) && e@ == ErrorView::RefNotFound(name@)),
        is_row(rows, seq![CellView::Text(kind), id_cell(snapshot)]) ==> {
            &&& r matches Ok(choice) ==> {
                &&& choice.snapshot == snapshot
                &&& choice.branch <==> kind == "branch"@
                &&& kind == "branch"@ || (kind == "tag"@ && snapshot is Some)
            }
            &&& kind == "branch"@ && snapshot is None ==> r is Ok
            &&& (kind == "branch"@ || (kind == "tag"@ && snapshot is Some)) ==> (r matches Err(e)
                ==> snapshot is Some && id_refused(codec, snapshot->0, e))
        },
{
    reveal_strlit("branch");
    reveal_strlit("tag");
    assert("branch"@.len() != "tag"@.len());
    if is_row(rows, seq![CellView::Text(kind), id_cell(snapshot)]) {
        let cells = cells_view(rows@[0]@);
        assert(cells == seq![CellView::Text(kind), id_cell(snapshot)]);
        assert(cells.len() == 2);
        assert(rows@[0]@.len() == 2);
        assert(cells[0] == rows@[0]@[0]@ && cells[1] == rows@[0]@[1]@);
        match r {
            Ok(choice) => {
                if let Some(id) = choice.snapshot {
                    if let Some(stored) = snapshot {
                        lemma_same_id(id, stored);
                    }
                }
            },
            Err(e) => {
                if let Some(stored) = snapshot {
                    assert(stored@.len() == 16);
                    if crate::reader_meta::snapshot_refused(codec, cells[1], e) {
                        let id = choose|id: Id|
                            crate::reader_meta::snapshot_cell(cells[1]) == Ok::<
                                Seq<u8>,
                                ErrorView,
                            >(id@) && #[trigger] id_refused(codec, id, e);
                        lemma_same_id(id, stored);
                    }
                }
            },
        }
    }
}

/// A sequence number stands for the one snapshot that has it: none is not found, and
/// two are a fault.
pub proof fn lemma_sequence_is_read<C: IdRule>(
    codec: C,
    sequence: u64,
    rows: Vec<Vec<Cell>>,
    r: Result<Id, RuntimeError>,
)
    requires
        call_ensures(read_sequence::<C>, (&codec, sequence, &rows), r),
    ensures
        sequence == 0 || rows@.len() == 0 ==> (r matches Err(e) && e@ is SnapshotNotFound),
        rows@.len() > 1 ==> r is Err,
        r matches Ok(id) ==> is_row(rows, seq![CellView::Blob(id@)]),
{
    if let Ok(id) = r {
        assert(cells_view(rows@[0]@) =~= seq![CellView::Blob(id@)]);
    }
}

/// What was read is the table of a generation exactly if its identity, version, state,
/// commit and features are those of the generation and its commit.
pub proof fn lemma_read_table_is_the_generations(
    meta: Meta,
    generation: Generation,
    commit: SemanticCommit,
    r: Result<(), RuntimeError>,
    base: Result<(), RuntimeError>,
)
    requires
        call_ensures(check_identity, (&meta, &generation, &commit), r),
        call_ensures(check_checkpoint_identity, (&meta, &generation), base),
    ensures
        r is Ok <==> {
            &&& meta.table == generation.table_id
            &&& meta.version == generation.table_version
            &&& meta.state == generation.semantic_state_sha256
            &&& meta.commit == commit.commit_id
            &&& meta.commit_hash == generation.semantic_commit.sha256
            &&& same_texts(meta.readers@, commit.required_reader_features_after_commit@)
            &&& same_texts(meta.writers@, commit.required_writer_features_after_commit@)
        },
        base is Ok <==> meta.table == generation.table_id && meta.version
            == generation.metadata_image.checkpoint.table_version,
{
    lemma_same_texts(meta.readers@, commit.required_reader_features_after_commit@);
    lemma_same_texts(meta.writers@, commit.required_writer_features_after_commit@);
}

/// The row of a commit is taken for it only where it says what the commit says: its
/// identity and state, where it is stored, its parent, its operations and its result.
pub proof fn lemma_commit_row_is_the_commits<C: IdRule>(
    codec: C,
    row: CommitRow,
    rows: Vec<Vec<Cell>>,
    commit: SemanticCommit,
    reference: ObjectReference,
    texts: CommitTexts,
    r: Result<(), RuntimeError>,
)
    requires
        is_row(rows, commit_row(row)),
        call_ensures(validate_commit_row::<C>, (&codec, &rows, &commit, &reference, &texts), r),
    ensures
        r is Ok ==> {
            &&& row.commit_id == commit.commit_id
            &&& row.semantic_state == commit.semantic_state_sha256
            &&& row.uri@ == reference.uri@
            &&& row.sha256 == reference.sha256
            &&& row.intent_count == commit.intents@.len()
            &&& row.operation_json@ == texts.operations@
            &&& row.metadata_json@ == texts.metadata@
            &&& commit.intents@.len() == 1 ==> row.result_json@ == texts.result@
            &&& match commit.parent_table_version {
                None => row.parent_table_version is None,
                Some(parent) => row.parent_table_version matches Some(n) && n == parent,
            }
        },
{
    if r is Ok {
        let cells = cells_view(rows@[0]@);
        assert(crate::reader_meta::commit_row_agrees(cells, commit, reference, texts));
        lemma_same_id(row.commit_id, commit.commit_id);
        lemma_same_digest(row.semantic_state, commit.semantic_state_sha256);
        lemma_same_digest(row.sha256, reference.sha256);
    }
}

/// A setting is as expected exactly if it is the one value that was read; a snapshot
/// belongs to a version that is no older and has given out its number.
pub proof fn lemma_read_settings(
    rows: Vec<Vec<Cell>>,
    expected: i64,
    r: Result<(), RuntimeError>,
    committed: u64,
    version: u64,
    age: Result<(), RuntimeError>,
    given: Result<(), RuntimeError>,
)
    requires
        call_ensures(check_setting, (&rows, expected), r),
        call_ensures(check_snapshot_age, (committed, version), age),
        call_ensures(check_snapshot_sequence, (committed, version), given),
    ensures
        r is Ok <==> is_row(rows, seq![CellView::Integer(expected)]),
        age is Ok <==> committed <= version,
        given is Ok <==> committed <= version,
{
    if rows@.len() == 1 {
        let cells = cells_view(rows@[0]@);
        if r is Ok {
            assert(cells =~= seq![CellView::Integer(expected)]);
        }
        if cells == seq![CellView::Integer(expected)] {
            assert(cells.len() == 1 && cells[0] == rows@[0]@[0]@);
        }
    }
}

} // verus!

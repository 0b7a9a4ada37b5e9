//! What the reader requires of an image's identity, its refs and its snapshots.
use crate::catalog::{lineage, snapshot_of, snapshot_row, SnapshotRow, Walk};
use crate::cells::{
    cell_accepted, cells_view, hash, hash_of, id, id_accepted, id_fault, id_of, id_refused,
    integer_of, is_null, natural_of, signed_cell, text_cell, text_of, uint, Cell, CellView, IdRule,
};
use crate::documents::{same_texts, Generation, ObjectReference, SemanticCommit};
use crate::error::{corrupt, ErrorView, RuntimeError};
use crate::hash::{lemma_same_digest, lemma_same_id, Id, Sha256};
use crate::history::{parse_refused, parses, SnapshotDescriptor, TextCodec};
use crate::reader_rows::{is_number, is_text};
use crate::tables::id_from_blob;
use crate::text::{reads, texts_view};
use crate::value::CanonicalValue;
use vstd::prelude::*;

verus! {

/// The protocol's reading of feature lists.
pub trait FeatureCodec {
    fn parse_features(&self, text: &String) -> Result<Vec<String>, RuntimeError>;
}

/// The protocol refused the feature list in a value.
pub open spec fn features_refused<C: FeatureCodec>(
    codec: C,
    cell: CellView,
    e: RuntimeError,
) -> bool {
    exists|text: String|
        is_text(cell, text@) && #[trigger] call_ensures(
            C::parse_features,
            (&codec, &text),
            Err::<Vec<String>, RuntimeError>(e),
        )
}

/// Whether a setting of the image has its value.
pub open spec fn setting_is(rows: Seq<Vec<Cell>>, expected: i64) -> bool {
    rows.len() == 1 && rows[0]@.len() == 1 && rows[0]@[0]@ == CellView::Integer(expected)
}

/// Checks one setting of the image.
pub fn check_setting(rows: &Vec<Vec<Cell>>, expected: i64) -> (r: Result<(), RuntimeError>)
    ensures
        match r {
            Ok(()) => setting_is(rows@, expected),
            Err(e) => {
                &&& !setting_is(rows@, expected)
                &&& if rows@.len() == 1 && rows@[0]@.len() == 1 && integer_of(
                    rows@[0]@[0]@,
                ) is Err {
                    integer_of(rows@[0]@[0]@) == Err::<i64, ErrorView>(e@)
                } else {
                    e@ == ErrorView::Corrupt("invalid SQLite metadata profile"@)
                }
            },
        },
{
    if rows.len() == 1 {
        let row = &rows[0];
        if row.len() == 1 {
            let value: i64 = signed_cell(&row[0])?;
            if value == expected {
                return Ok(());
            }
        }
    }
    Err(corrupt("invalid SQLite metadata profile"))
}

/// What an image says of itself.
#[derive(Debug)]
pub struct Meta {
    pub table: Id,
    pub version: u64,
    pub state: Sha256,
    pub commit: Id,
    pub commit_hash: Sha256,
    pub schema: u32,
    pub sequence: u64,
    pub readers: Vec<String>,
    pub writers: Vec<String>,
}

/// Whether a row has the profile that the reader supports.
pub open spec fn meta_profile(row: Seq<CellView>) -> bool {
    &&& row.len() == 13
    &&& is_text(row[0], "otmp"@)
    &&& is_text(row[1], "0.0.2-alpha"@)
    &&& row[9] == CellView::Integer(0)
    &&& row[10] == CellView::Integer(0)
}

pub open spec fn meta_is<C: FeatureCodec>(codec: C, meta: Meta, row: Seq<CellView>) -> bool {
    &&& id_of(row[2]) == Ok::<Seq<u8>, ErrorView>(meta.table@)
    &&& is_number(row[3], meta.version as int)
    &&& hash_of(row[4]) == Ok::<Seq<u8>, ErrorView>(meta.state@)
    &&& id_of(row[5]) == Ok::<Seq<u8>, ErrorView>(meta.commit@)
    &&& hash_of(row[6]) == Ok::<Seq<u8>, ErrorView>(meta.commit_hash@)
    &&& is_number(row[7], meta.schema as int)
    &&& is_number(row[8], meta.sequence as int)
    &&& features_are(codec, row[11], meta.readers)
    &&& features_are(codec, row[12], meta.writers)
}

/// The features that the codec reads in a value.
pub open spec fn features_are<C: FeatureCodec>(
    codec: C,
    cell: CellView,
    features: Vec<String>,
) -> bool {
    exists|text: String|
        is_text(cell, text@) && #[trigger] call_ensures(
            C::parse_features,
            (&codec, &text),
            Ok::<Vec<String>, RuntimeError>(features),
        )
}

/// The codec reads features in a value.
pub open spec fn features_read<C: FeatureCodec>(codec: C, cell: CellView) -> bool {
    exists|features: Vec<String>| #[trigger] features_are(codec, cell, features)
}

/// Why a value cannot be read as a feature list.
pub open spec fn features_fault<C: FeatureCodec>(
    codec: C,
    cell: CellView,
    e: RuntimeError,
) -> bool {
    match text_of(cell) {
        Err(error) => e@ == error,
        Ok(_) => features_refused(codec, cell, e),
    }
}

pub open spec fn outside_meta_profile() -> ErrorView {
    ErrorView::Corrupt("unsupported metadata runtime profile"@)
}

/// The first fault of what an image says of itself: its columns are read one by
/// one, and each has to be as the one before it was.
pub open spec fn meta_fault<C: IdRule + FeatureCodec>(
    codec: C,
    rows: Seq<Vec<Cell>>,
    e: RuntimeError,
) -> bool {
    if rows.len() != 1 {
        e@ == ErrorView::Corrupt("metadata identity row missing"@)
    } else if rows[0]@.len() != 13 {
        e@ == outside_meta_profile()
    } else {
        let row = cells_view(rows[0]@);
        let protocol = is_text(row[0], "otmp"@);
        let supported = protocol && is_text(row[1], "0.0.2-alpha"@);
        let unpartitioned = supported && row[9] == CellView::Integer(0);
        let unsorted = unpartitioned && row[10] == CellView::Integer(0);
        let table = unsorted && cell_accepted(codec, row[2]);
        let version = table && natural_of(row[3]) is Ok;
        let state = version && hash_of(row[4]) is Ok;
        let commit = state && cell_accepted(codec, row[5]);
        let object = commit && hash_of(row[6]) is Ok;
        let schema = object && (natural_of(row[7]) matches Ok(n) && n <= u32::MAX);
        let sequence = schema && natural_of(row[8]) is Ok;
        let readers = sequence && features_read(codec, row[11]);
        ||| profile_text_fault(row[0], "otmp"@, e@)
        ||| protocol && profile_text_fault(row[1], "0.0.2-alpha"@, e@)
        ||| supported && profile_number_fault(row[9], e@)
        ||| unpartitioned && profile_number_fault(row[10], e@)
        ||| unsorted && id_fault(codec, row[2], e)
        ||| table && natural_of(row[3]) == Err::<u64, ErrorView>(e@)
        ||| version && hash_of(row[4]) == Err::<Seq<u8>, ErrorView>(e@)
        ||| state && id_fault(codec, row[5], e)
        ||| commit && hash_of(row[6]) == Err::<Seq<u8>, ErrorView>(e@)
        ||| object && match natural_of(row[7]) {
            Err(error) => e@ == error,
            Ok(n) => n > u32::MAX && e@ == ErrorView::Corrupt("schema ID overflow"@),
        }
        ||| schema && natural_of(row[8]) == Err::<u64, ErrorView>(e@)
        ||| sequence && features_fault(codec, row[11], e)
        ||| readers && features_fault(codec, row[12], e)
    }
}

/// A text of the profile that is not one, or another.
pub open spec fn profile_text_fault(cell: CellView, wanted: Seq<char>, e: ErrorView) -> bool {
    match text_of(cell) {
        Err(error) => e == error,
        Ok(text) => text != wanted && e == outside_meta_profile(),
    }
}

/// A default of the profile that is no number, or not zero.
pub open spec fn profile_number_fault(cell: CellView, e: ErrorView) -> bool {
    match integer_of(cell) {
        Err(error) => e == error,
        Ok(n) => n != 0 && e == outside_meta_profile(),
    }
}

/// Reads what an image says of itself.
#[verifier::rlimit(40)]
pub fn read_meta<C: IdRule + FeatureCodec>(codec: &C, rows: &Vec<Vec<Cell>>) -> (r: Result<
    Meta,
    RuntimeError,
>)
    ensures
        match r {
            Ok(meta) => {
                &&& rows@.len() == 1
                &&& meta_profile(cells_view(rows@[0]@))
                &&& meta_is(*codec, meta, cells_view(rows@[0]@))
            },
            Err(e) => meta_fault(*codec, rows@, e),
        },
{
    if rows.len() != 1 {
        return Err(corrupt("metadata identity row missing"));
    }
    let row = &rows[0];
    let ghost cells = cells_view(row@);
    if row.len() != 13 {
        return Err(corrupt("unsupported metadata runtime profile"));
    }
    assert forall|i: int| 0 <= i < 13 implies #[trigger] cells[i] == row@[i]@ by {}
    if !reads(text_cell(&row[0])?, "otmp") || !reads(text_cell(&row[1])?, "0.0.2-alpha") {
        return Err(corrupt("unsupported metadata runtime profile"));
    }
    if signed_cell(&row[9])? != 0 || signed_cell(&row[10])? != 0 {
        return Err(corrupt("unsupported metadata runtime profile"));
    }
    let table = id(codec, &row[2])?;
    let version: u64 = uint(&row[3])?;
    let state = hash(&row[4])?;
    let commit = id(codec, &row[5])?;
    let commit_hash = hash(&row[6])?;
    let schema: u64 = uint(&row[7])?;
    if schema > u32::MAX as u64 {
        return Err(corrupt("schema ID overflow"));
    }
    let sequence: u64 = uint(&row[8])?;
    let reader_text = text_cell(&row[11])?;
    let readers = match codec.parse_features(reader_text) {
        Err(e) => {
            assert(call_ensures(
                C::parse_features,
                (codec, reader_text),
                Err::<Vec<String>, RuntimeError>(e),
            ));
            assert(features_refused(*codec, cells[11], e));
            return Err(e);
        },
        Ok(features) => features,
    };
    assert(call_ensures(
        C::parse_features,
        (codec, reader_text),
        Ok::<Vec<String>, RuntimeError>(readers),
    ));
    assert(features_are(*codec, cells[11], readers));
    let writer_text = text_cell(&row[12])?;
    let writers = match codec.parse_features(writer_text) {
        Err(e) => {
            assert(call_ensures(
                C::parse_features,
                (codec, writer_text),
                Err::<Vec<String>, RuntimeError>(e),
            ));
            assert(features_refused(*codec, cells[12], e));
            return Err(e);
        },
        Ok(features) => features,
    };
    assert(call_ensures(
        C::parse_features,
        (codec, writer_text),
        Ok::<Vec<String>, RuntimeError>(writers),
    ));
    let meta = Meta {
        table,
        version,
        state,
        commit,
        commit_hash,
        schema: schema as u32,
        sequence,
        readers,
        writers,
    };
    proof {
        assert(is_text(cells[11], reader_text@));
        assert(is_text(cells[12], writer_text@));
        assert(is_number(cells[3], meta.version as int));
        assert(is_number(cells[7], meta.schema as int));
        assert(is_number(cells[8], meta.sequence as int));
        assert(hash_of(cells[4]) == Ok::<Seq<u8>, ErrorView>(meta.state@));
        assert(hash_of(cells[6]) == Ok::<Seq<u8>, ErrorView>(meta.commit_hash@));
        assert(meta_profile(cells));
        assert(features_are(*codec, cells[11], meta.readers));
        assert(features_are(*codec, cells[12], meta.writers));
        assert(meta_is(*codec, meta, cells));
    }
    Ok(meta)
}

/// Checks the checkpoint under an image against the generation.
pub fn check_checkpoint_identity(base: &Meta, generation: &Generation) -> (r: Result<
    (),
    RuntimeError,
>)
    ensures
        ({
            let agrees = base.table == generation.table_id && base.version
                == generation.metadata_image.checkpoint.table_version;
            match r {
                Ok(()) => agrees,
                Err(e) => !agrees && e@ == ErrorView::Corrupt(
                    "checkpoint table or version identity mismatch"@,
                ),
            }
        }),
{
    if !(base.table == generation.table_id) || base.version
        != generation.metadata_image.checkpoint.table_version {
        return Err(corrupt("checkpoint table or version identity mismatch"));
    }
    Ok(())
}

/// Whether an image is the one that a generation and its commit describe.
pub open spec fn identity_agrees(
    meta: Meta,
    generation: Generation,
    commit: SemanticCommit,
) -> bool {
    &&& meta.table == generation.table_id
    &&& meta.version == generation.table_version
    &&& meta.state == generation.semantic_state_sha256
    &&& meta.commit == commit.commit_id
    &&& meta.commit_hash == generation.semantic_commit.sha256
    &&& texts_view(meta.readers@) == texts_view(commit.required_reader_features_after_commit@)
    &&& texts_view(meta.writers@) == texts_view(commit.required_writer_features_after_commit@)
}

pub fn check_identity(meta: &Meta, generation: &Generation, commit: &SemanticCommit) -> (r: Result<
    (),
    RuntimeError,
>)
    ensures
        match r {
            Ok(()) => identity_agrees(*meta, *generation, *commit),
            Err(e) => !identity_agrees(*meta, *generation, *commit) && e@ == ErrorView::Corrupt(
                "logical metadata identity differs from generation or commit"@,
            ),
        },
{
    if !(meta.table == generation.table_id) || meta.version != generation.table_version || !(
    meta.state == generation.semantic_state_sha256) || !(meta.commit == commit.commit_id) || !(
    meta.commit_hash == generation.semantic_commit.sha256) || !same_texts(
        &meta.readers,
        &commit.required_reader_features_after_commit,
    ) || !same_texts(&meta.writers, &commit.required_writer_features_after_commit) {
        return Err(corrupt("logical metadata identity differs from generation or commit"));
    }
    Ok(())
}

/// The canonical texts of a commit's parts.
#[derive(Debug)]
pub struct CommitTexts {
    pub operations: String,
    pub metadata: String,
    /// The result of the first intent.
    pub result: String,
}

/// Whether the stored row of a commit says what the commit says.
pub open spec fn commit_row_agrees(
    row: Seq<CellView>,
    commit: SemanticCommit,
    reference: ObjectReference,
    texts: CommitTexts,
) -> bool {
    &&& row.len() == 9
    &&& id_of(row[0]) == Ok::<Seq<u8>, ErrorView>(commit.commit_id@)
    &&& hash_of(row[1]) == Ok::<Seq<u8>, ErrorView>(commit.semantic_state_sha256@)
    &&& is_text(row[2], reference.uri@)
    &&& hash_of(row[3]) == Ok::<Seq<u8>, ErrorView>(reference.sha256@)
    &&& is_number(row[5], commit.intents@.len() as int)
    &&& is_text(row[6], texts.operations@)
    &&& is_text(row[8], texts.metadata@)
    &&& commit.intents@.len() == 1 ==> is_text(row[7], texts.result@)
    &&& match commit.parent_table_version {
        None => row[4] is Null,
        Some(parent) => is_number(row[4], parent as int),
    }
}

pub open spec fn disagrees() -> ErrorView {
    ErrorView::Corrupt("relational commit disagrees with authenticated semantic commit"@)
}

/// A value that cannot be read, or that is not the one expected.
pub open spec fn unlike<V>(read: Result<V, ErrorView>, wanted: V, e: ErrorView) -> bool {
    match read {
        Err(error) => e == error,
        Ok(value) => value != wanted && e == disagrees(),
    }
}

/// The first fault of the stored row of a commit: its columns are compared one by
/// one, in the order of their weight.
pub open spec fn commit_row_fault<C: IdRule>(
    codec: C,
    rows: Seq<Vec<Cell>>,
    commit: SemanticCommit,
    reference: ObjectReference,
    texts: CommitTexts,
    e: RuntimeError,
) -> bool {
    if rows.len() != 1 {
        e@ == ErrorView::Corrupt("selected relational commit is missing"@)
    } else if rows[0]@.len() != 9 {
        e@ == disagrees()
    } else {
        let row = cells_view(rows[0]@);
        let read = cell_accepted(codec, row[0]);
        let named = read && id_of(row[0]) == Ok::<Seq<u8>, ErrorView>(commit.commit_id@);
        let state = named && hash_of(row[1]) == Ok::<Seq<u8>, ErrorView>(
            commit.semantic_state_sha256@,
        );
        let address = state && is_text(row[2], reference.uri@);
        let object = address && hash_of(row[3]) == Ok::<Seq<u8>, ErrorView>(reference.sha256@);
        let intents = object && is_number(row[5], commit.intents@.len() as int);
        let operations = intents && is_text(row[6], texts.operations@);
        let metadata = operations && is_text(row[8], texts.metadata@);
        let single = commit.intents@.len() == 1;
        let result = metadata && (single ==> is_text(row[7], texts.result@));
        ||| id_fault(codec, row[0], e)
        ||| read && !named && e@ == disagrees()
        ||| named && unlike(hash_of(row[1]), commit.semantic_state_sha256@, e@)
        ||| state && unlike(text_of(row[2]), reference.uri@, e@)
        ||| address && unlike(hash_of(row[3]), reference.sha256@, e@)
        ||| object && match natural_of(row[5]) {
            Err(error) => e@ == error,
            Ok(n) => n != commit.intents@.len() && e@ == disagrees(),
        }
        ||| intents && unlike(text_of(row[6]), texts.operations@, e@)
        ||| operations && unlike(text_of(row[8]), texts.metadata@, e@)
        ||| metadata && single && unlike(text_of(row[7]), texts.result@, e@)
        ||| result && match commit.parent_table_version {
            None => !(row[4] is Null) && e@ == disagrees(),
            Some(parent) => unlike(natural_of(row[4]), parent, e@),
        }
    }
}

fn disagreement() -> (e: RuntimeError)
    ensures
        e@ == ErrorView::Corrupt("relational commit disagrees with authenticated semantic commit"@),
{
    corrupt("relational commit disagrees with authenticated semantic commit")
}

/// Checks the stored row of the selected commit.
#[verifier::rlimit(60)]
pub fn validate_commit_row<C: IdRule>(
    codec: &C,
    rows: &Vec<Vec<Cell>>,
    commit: &SemanticCommit,
    reference: &ObjectReference,
    texts: &CommitTexts,
) -> (r: Result<(), RuntimeError>)
    ensures
        match r {
            Ok(()) => rows@.len() == 1 && commit_row_agrees(
                cells_view(rows@[0]@),
                *commit,
                *reference,
                *texts,
            ),
            Err(e) => commit_row_fault(*codec, rows@, *commit, *reference, *texts, e),
        },
{
    if rows.len() != 1 {
        return Err(corrupt("selected relational commit is missing"));
    }
    let row = &rows[0];
    let ghost cells = cells_view(row@);
    if row.len() != 9 {
        return Err(disagreement());
    }
    assert forall|i: int| 0 <= i < 9 implies #[trigger] cells[i] == row@[i]@ by {}
    let commit_id = id(codec, &row[0])?;
    if !(commit_id == commit.commit_id) {
        proof {
            if commit_id@ == commit.commit_id@ {
                lemma_same_id(commit_id, commit.commit_id);
            }
        }
        return Err(disagreement());
    }
    let state = hash(&row[1])?;
    if !(state == commit.semantic_state_sha256) {
        proof {
            if state@ == commit.semantic_state_sha256@ {
                lemma_same_digest(state, commit.semantic_state_sha256);
            }
        }
        return Err(disagreement());
    }
    if !(*text_cell(&row[2])? == reference.uri) {
        return Err(disagreement());
    }
    let object = hash(&row[3])?;
    if !(object == reference.sha256) {
        proof {
            if object@ == reference.sha256@ {
                lemma_same_digest(object, reference.sha256);
            }
        }
        return Err(disagreement());
    }
    if uint(&row[5])? != commit.intents.len() as u64 {
        return Err(disagreement());
    }
    if !(*text_cell(&row[6])? == texts.operations) {
        return Err(disagreement());
    }
    if !(*text_cell(&row[8])? == texts.metadata) {
        return Err(disagreement());
    }
    if commit.intents.len() == 1 {
        if !(*text_cell(&row[7])? == texts.result) {
            return Err(disagreement());
        }
    }
    match commit.parent_table_version {
        None => {
            if !is_null(&row[4]) {
                return Err(disagreement());
            }
        },
        Some(parent) => {
            if uint(&row[4])? != parent {
                return Err(disagreement());
            }
        },
    }
    Ok(())
}

/// A number of a snapshot's row.
pub open spec fn whole(cell: CellView) -> Result<u64, ErrorView> {
    match cell {
        CellView::Integer(n) => if n < 0 {
            Err(ErrorView::Corrupt("negative integer"@))
        } else {
            Ok(n as u64)
        },
        _ => Err(ErrorView::Corrupt("integer"@)),
    }
}

fn read_whole(cell: &Cell) -> (r: Result<u64, RuntimeError>)
    ensures
        match r {
            Ok(n) => whole(cell@) == Ok::<u64, ErrorView>(n),
            Err(e) => whole(cell@) == Err::<u64, ErrorView>(e@),
        },
{
    match cell {
        Cell::Integer(n) => if *n < 0 {
            Err(corrupt("negative integer"))
        } else {
            Ok(*n as u64)
        },
        _ => Err(corrupt("integer")),
    }
}

fn read_small(cell: &Cell, name: &str) -> (r: Result<u32, RuntimeError>)
    ensures
        match r {
            Ok(n) => whole(cell@) matches Ok(value) && value == n,
            Err(e) => match whole(cell@) {
                Err(error) => e@ == error,
                Ok(value) => value > u32::MAX && e@ == ErrorView::Corrupt(name@),
            },
        },
{
    match read_whole(cell) {
        Err(e) => Err(e),
        Ok(n) => if n > u32::MAX as u64 {
            Err(corrupt(name))
        } else {
            Ok(n as u32)
        },
    }
}

/// The identifier of a snapshot in a row.
pub open spec fn snapshot_cell(cell: CellView) -> Result<Seq<u8>, ErrorView> {
    match cell {
        CellView::Blob(bytes) => if bytes.len() == 16 {
            Ok(bytes)
        } else {
            Err(ErrorView::Corrupt("snapshot ID"@))
        },
        _ => Err(ErrorView::Corrupt("snapshot ID"@)),
    }
}

/// The protocol refused the identifier of a snapshot in a value.
pub open spec fn snapshot_refused<C: IdRule>(codec: C, cell: CellView, e: RuntimeError) -> bool {
    exists|id: Id|
        snapshot_cell(cell) == Ok::<Seq<u8>, ErrorView>(id@) && #[trigger] id_refused(codec, id, e)
}

/// The value is the identifier of a snapshot, and the protocol accepts it.
pub open spec fn snapshot_accepted<C: IdRule>(codec: C, cell: CellView) -> bool {
    exists|id: Id|
        snapshot_cell(cell) == Ok::<Seq<u8>, ErrorView>(id@) && #[trigger] id_accepted(codec, id)
}

/// Why a value cannot be read as the identifier of a snapshot.
pub open spec fn snapshot_id_fault<C: IdRule>(codec: C, cell: CellView, e: RuntimeError) -> bool {
    match snapshot_cell(cell) {
        Err(error) => e@ == error,
        Ok(_) => snapshot_refused(codec, cell, e),
    }
}

fn read_snapshot_id<C: IdRule>(codec: &C, cell: &Cell) -> (r: Result<Id, RuntimeError>)
    ensures
        match r {
            Ok(id) => snapshot_cell(cell@) == Ok::<Seq<u8>, ErrorView>(id@) && snapshot_accepted(
                *codec,
                cell@,
            ),
            Err(e) => snapshot_id_fault(*codec, cell@, e),
        },
{
    match cell {
        Cell::Blob(bytes) => match id_from_blob(bytes) {
            Err(_) => Err(corrupt("snapshot ID")),
            Ok(id) => {
                let verdict = codec.check_id(&id);
                match verdict {
                    Err(e) => {
                        assert(id_refused(*codec, id, e));
                        Err(e)
                    },
                    Ok(_) => {
                        assert(id_accepted(*codec, id));
                        Ok(id)
                    },
                }
            },
        },
        _ => Err(corrupt("snapshot ID")),
    }
}

fn read_optional_id<C: IdRule>(codec: &C, cell: &Cell) -> (r: Result<Option<Id>, RuntimeError>)
    ensures
        match r {
            Ok(None) => cell@ is Null,
            Ok(Some(id)) => {
                &&& !(cell@ is Null)
                &&& snapshot_cell(cell@) == Ok::<Seq<u8>, ErrorView>(id@)
                &&& snapshot_accepted(*codec, cell@)
            },
            Err(e) => !(cell@ is Null) && snapshot_id_fault(*codec, cell@, e),
        },
{
    if is_null(cell) {
        return Ok(None);
    }
    match read_snapshot_id(codec, cell) {
        Ok(id) => Ok(Some(id)),
        Err(e) => Err(e),
    }
}

fn read_text<'a>(cell: &'a Cell, name: &str) -> (r: Result<&'a String, RuntimeError>)
    ensures
        match r {
            Ok(text) => cell@ == CellView::Text(text@),
            Err(e) => !(cell@ is Text) && e@ == ErrorView::Corrupt(name@),
        },
{
    match cell {
        Cell::Text(text) => Ok(text),
        _ => Err(corrupt(name)),
    }
}

/// Whether a snapshot is one of an append-only table without partitions.
pub open spec fn in_profile(d: SnapshotDescriptor) -> bool {
    &&& d.committed_table_version != 0
    &&& d.schema_id != 0
    &&& d.partition_spec_id == 0
    &&& d.sort_order_id == 0
    &&& d.operation@ == "append"@
    &&& d.summary is Object
    &&& d.metadata is Object
}

/// Whether a row describes a snapshot. Texts are what the codec reads.
pub open spec fn snapshot_is<C: TextCodec>(
    codec: C,
    d: SnapshotDescriptor,
    row: Seq<CellView>,
) -> bool {
    &&& row.len() == 10
    &&& match d.parent_snapshot_id {
        None => row[0] is Null,
        Some(parent) => snapshot_cell(row[0]) == Ok::<Seq<u8>, ErrorView>(parent@),
    }
    &&& d.sequence_number > 0
    &&& whole(row[1]) == Ok::<u64, ErrorView>(d.sequence_number)
    &&& whole(row[2]) == Ok::<u64, ErrorView>(d.committed_table_version)
    &&& whole(row[3]) == Ok::<u64, ErrorView>(d.schema_id as u64)
    &&& whole(row[4]) == Ok::<u64, ErrorView>(d.partition_spec_id as u64)
    &&& whole(row[5]) == Ok::<u64, ErrorView>(d.sort_order_id as u64)
    &&& row[6] == CellView::Text(d.operation@)
    &&& row[7] == CellView::Integer(d.committed_at_ms)
    &&& exists|text: String|
        row[8] == CellView::Text(text@) && #[trigger] call_ensures(
            C::parse,
            (&codec, &text),
            Ok::<CanonicalValue, RuntimeError>(d.summary),
        )
    &&& exists|text: String|
        row[9] == CellView::Text(text@) && #[trigger] call_ensures(
            C::parse,
            (&codec, &text),
            Ok::<CanonicalValue, RuntimeError>(d.metadata),
        )
}

/// The first fault of a snapshot's row: its columns are read one by one.
pub open spec fn snapshot_row_fault<C: IdRule + TextCodec>(
    codec: C,
    rows: Seq<Vec<Cell>>,
    e: RuntimeError,
) -> bool {
    if rows.len() != 1 {
        e@ == ErrorView::SnapshotNotFound
    } else if rows[0]@.len() != 10 {
        e@ == ErrorView::Corrupt("invalid snapshot row"@)
    } else {
        let row = cells_view(rows[0]@);
        let parent = row[0] is Null || snapshot_accepted(codec, row[0]);
        let sequence = parent && (whole(row[1]) matches Ok(n) && n > 0);
        let version = sequence && whole(row[2]) is Ok;
        let schema = version && (whole(row[3]) matches Ok(n) && n <= u32::MAX);
        let partition = schema && (whole(row[4]) matches Ok(n) && n <= u32::MAX);
        let sort = partition && (whole(row[5]) matches Ok(n) && n <= u32::MAX);
        let operation = sort && row[6] is Text;
        let time = operation && row[7] is Integer;
        let summary = time && text_accepted(codec, row[8]);
        let metadata = summary && text_accepted(codec, row[9]);
        ||| !(row[0] is Null) && snapshot_id_fault(codec, row[0], e)
        ||| parent && match whole(row[1]) {
            Err(error) => e@ == error,
            Ok(n) => n == 0 && e@ == ErrorView::Corrupt("nonpositive sequence"@),
        }
        ||| sequence && whole(row[2]) == Err::<u64, ErrorView>(e@)
        ||| version && small_fault(row[3], "schema ID"@, e@)
        ||| schema && small_fault(row[4], "partition ID"@, e@)
        ||| partition && small_fault(row[5], "sort ID"@, e@)
        ||| sort && !(row[6] is Text) && e@ == ErrorView::Corrupt("operation"@)
        ||| operation && !(row[7] is Integer) && e@ == ErrorView::Corrupt("integer"@)
        ||| time && text_fault(codec, row[8], "summary"@, e)
        ||| summary && text_fault(codec, row[9], "metadata"@, e)
        ||| {
            &&& metadata
            &&& outside_profile(codec, row)
            &&& e@ == ErrorView::Corrupt(
                "snapshot is outside the append-only unpartitioned profile"@,
            )
        }
    }
}

/// A number that cannot be read, or does not fit in four bytes.
pub open spec fn small_fault(cell: CellView, name: Seq<char>, e: ErrorView) -> bool {
    match whole(cell) {
        Err(error) => e == error,
        Ok(n) => n > u32::MAX && e == ErrorView::Corrupt(name),
    }
}

/// A text that is none, or that the protocol refused.
pub open spec fn text_fault<C: TextCodec>(
    codec: C,
    cell: CellView,
    name: Seq<char>,
    e: RuntimeError,
) -> bool {
    if cell is Text {
        text_refused(codec, cell, e)
    } else {
        e@ == ErrorView::Corrupt(name)
    }
}

/// The protocol reads the text in a value.
pub open spec fn text_accepted<C: TextCodec>(codec: C, cell: CellView) -> bool {
    exists|text: String| cell == CellView::Text(text@) && #[trigger] parses(codec, text)
}

/// The snapshot that a row describes is outside the profile.
pub open spec fn outside_profile<C: TextCodec>(codec: C, row: Seq<CellView>) -> bool {
    exists|d: SnapshotDescriptor| #[trigger] snapshot_is(codec, d, row) && !in_profile(d)
}

/// The protocol refused the text in a value.
pub open spec fn text_refused<C: TextCodec>(codec: C, cell: CellView, e: RuntimeError) -> bool {
    exists|text: String|
        cell == CellView::Text(text@) && #[trigger] parse_refused(codec, text, e)
}

/// Reads a snapshot from its row.
#[verifier::rlimit(60)]
pub fn read_snapshot<C: IdRule + TextCodec>(
    codec: &C,
    snapshot_id: Id,
    rows: &Vec<Vec<Cell>>,
) -> (r: Result<SnapshotDescriptor, RuntimeError>)
    ensures
        match r {
            Ok(d) => {
                &&& rows@.len() == 1
                &&& d.snapshot_id == snapshot_id
                &&& snapshot_is(*codec, d, cells_view(rows@[0]@))
                &&& in_profile(d)
            },
            Err(e) => snapshot_row_fault(*codec, rows@, e),
        },
{
    if rows.len() != 1 {
        return Err(RuntimeError::SnapshotNotFound);
    }
    let row = &rows[0];
    let ghost cells = cells_view(row@);
    if row.len() != 10 {
        return Err(corrupt("invalid snapshot row"));
    }
    assert forall|i: int| 0 <= i < 10 implies #[trigger] cells[i] == row@[i]@ by {}
    let parent_snapshot_id = read_optional_id(codec, &row[0])?;
    let sequence_number: u64 = read_whole(&row[1])?;
    if sequence_number == 0 {
        return Err(corrupt("nonpositive sequence"));
    }
    let committed_table_version: u64 = read_whole(&row[2])?;
    let schema_id: u32 = read_small(&row[3], "schema ID")?;
    let partition_spec_id: u32 = read_small(&row[4], "partition ID")?;
    let sort_order_id: u32 = read_small(&row[5], "sort ID")?;
    let operation = read_text(&row[6], "operation")?;
    let committed_at_ms: i64 = match &row[7] {
        Cell::Integer(n) => *n,
        _ => {
            return Err(corrupt("integer"));
        },
    };
    let summary_text = read_text(&row[8], "summary")?;
    let summary = match codec.parse(summary_text) {
        Err(e) => {
            assert(parse_refused(*codec, *summary_text, e));
            return Err(e);
        },
        Ok(value) => value,
    };
    assert(call_ensures(
        C::parse,
        (codec, summary_text),
        Ok::<CanonicalValue, RuntimeError>(summary),
    ));
    assert(parses(*codec, *summary_text));
    let metadata_text = read_text(&row[9], "metadata")?;
    let metadata = match codec.parse(metadata_text) {
        Err(e) => {
            assert(parse_refused(*codec, *metadata_text, e));
            return Err(e);
        },
        Ok(value) => value,
    };
    assert(call_ensures(
        C::parse,
        (codec, metadata_text),
        Ok::<CanonicalValue, RuntimeError>(metadata),
    ));
    assert(parses(*codec, *metadata_text));
    let objects: bool = match (&summary, &metadata) {
        (CanonicalValue::Object(_), CanonicalValue::Object(_)) => true,
        _ => false,
    };
    let appends: bool = reads(operation, "append");
    let d = SnapshotDescriptor {
        snapshot_id,
        parent_snapshot_id,
        sequence_number,
        committed_table_version,
        schema_id,
        partition_spec_id,
        sort_order_id,
        operation: operation.clone(),
        committed_at_ms,
        summary,
        metadata,
    };
    assert(snapshot_is(*codec, d, cells));
    if committed_table_version == 0 || schema_id == 0 || partition_spec_id != 0 || sort_order_id
        != 0 || !appends || !objects {
        return Err(corrupt("snapshot is outside the append-only unpartitioned profile"));
    }
    Ok(d)
}

/// What a ref points to.
#[derive(Clone, Copy, Debug)]
pub struct RefChoice {
    pub branch: bool,
    pub snapshot: Option<Id>,
}

pub open spec fn ref_is(choice: RefChoice, row: Seq<CellView>) -> bool {
    &&& row.len() == 2
    &&& row[0] == CellView::Text(
        if choice.branch {
            "branch"@
        } else {
            "tag"@
        },
    )
    &&& match choice.snapshot {
        None => row[1] is Null && choice.branch,
        Some(id) => snapshot_cell(row[1]) == Ok::<Seq<u8>, ErrorView>(id@),
    }
}

/// Reads the row of a selected ref.
pub fn read_ref<C: IdRule>(codec: &C, name: &String, rows: &Vec<Vec<Cell>>) -> (r: Result<
    RefChoice,
    RuntimeError,
>)
    ensures
        match r {
            Ok(choice) => rows@.len() == 1 && ref_is(choice, cells_view(rows@[0]@)),
            Err(e) => if rows@.len() != 1 {
                e@ == ErrorView::RefNotFound(name@)
            } else if rows@[0]@.len() != 2 {
                e@ == ErrorView::Corrupt("invalid ref row"@)
            } else {
                let row = rows@[0]@;
                if !(row[0]@ is Text) {
                    e@ == ErrorView::Corrupt("ref type"@)
                } else if row[0]@ != CellView::Text("branch"@) && row[0]@ != CellView::Text(
                    "tag"@,
                ) {
                    e@ == ErrorView::Corrupt("invalid ref type"@)
                } else if row[1]@ is Null {
                    row[0]@ == CellView::Text("tag"@) && e@ == ErrorView::Corrupt(
                        "tag has no selected snapshot"@,
                    )
                } else {
                    snapshot_id_fault(*codec, row[1]@, e)
                }
            },
        },
{
    if rows.len() != 1 {
        return Err(RuntimeError::RefNotFound(name.clone()));
    }
    let row = &rows[0];
    if row.len() != 2 {
        return Err(corrupt("invalid ref row"));
    }
    let ghost cells = cells_view(row@);
    assert(cells[0] == row@[0]@ && cells[1] == row@[1]@);
    let kind = read_text(&row[0], "ref type")?;
    let branch: bool = reads(kind, "branch");
    if !branch && !reads(kind, "tag") {
        return Err(corrupt("invalid ref type"));
    }
    let snapshot = read_optional_id(codec, &row[1])?;
    if !branch && snapshot.is_none() {
        return Err(corrupt("tag has no selected snapshot"));
    }
    Ok(RefChoice { branch, snapshot })
}

/// Reads the rows with a sequence number, of which there may be one.
pub fn read_sequence<C: IdRule>(codec: &C, sequence: u64, rows: &Vec<Vec<Cell>>) -> (r: Result<
    Id,
    RuntimeError,
>)
    ensures
        match r {
            Ok(id) => {
                &&& sequence != 0
                &&& rows@.len() == 1
                &&& rows@[0]@.len() == 1
                &&& snapshot_cell(rows@[0]@[0]@) == Ok::<Seq<u8>, ErrorView>(id@)
            },
            Err(e) => if sequence == 0 || rows@.len() == 0 {
                e@ == ErrorView::SnapshotNotFound
            } else if rows@.len() > 1 || rows@[0]@.len() != 1 {
                e@ == ErrorView::Corrupt("duplicate snapshot sequence"@)
            } else {
                snapshot_id_fault(*codec, rows@[0]@[0]@, e)
            },
        },
{
    if sequence == 0 || rows.len() == 0 {
        return Err(RuntimeError::SnapshotNotFound);
    }
    if rows.len() > 1 {
        return Err(corrupt("duplicate snapshot sequence"));
    }
    let row = &rows[0];
    if row.len() != 1 {
        return Err(corrupt("duplicate snapshot sequence"));
    }
    read_snapshot_id(codec, &row[0])
}

/// Checks that a snapshot is not newer than the version that was selected.
pub fn check_snapshot_age(committed: u64, table_version: u64) -> (r: Result<(), RuntimeError>)
    ensures
        match r {
            Ok(()) => committed <= table_version,
            Err(e) => committed > table_version && e@ == ErrorView::Corrupt(
                "snapshot belongs to newer metadata"@,
            ),
        },
{
    if committed > table_version {
        return Err(corrupt("snapshot belongs to newer metadata"));
    }
    Ok(())
}

/// Checks that a snapshot's sequence number was allocated by the version that
/// was selected.
pub fn check_snapshot_sequence(sequence: u64, last: u64) -> (r: Result<(), RuntimeError>)
    ensures
        match r {
            Ok(()) => sequence <= last,
            Err(e) => sequence > last && e@ == ErrorView::Corrupt(
                "snapshot sequence exceeds selected metadata"@,
            ),
        },
{
    if sequence > last {
        return Err(corrupt("snapshot sequence exceeds selected metadata"));
    }
    Ok(())
}

/// What a walk towards an ancestor finds at a snapshot.
#[derive(Clone, Copy, Debug)]
pub enum DescentStep {
    Found,
    Up { parent: Option<Id>, sequence: u64 },
}

/// One step of a walk from a tip towards an ancestor.
pub fn descent_step(row: Option<SnapshotRow>, id: Id, ancestor: Id, last: u64) -> (r: Result<
    DescentStep,
    RuntimeError,
>)
    ensures
        match row {
            None => r matches Err(e) && e@ == ErrorView::Corrupt("dangling snapshot ancestry"@),
            Some(row) => if row.sequence_number < 0 {
                r matches Err(e) && e@ == ErrorView::Corrupt("negative metadata integer"@)
            } else if row.sequence_number >= last {
                r matches Err(e) && e@ == ErrorView::Corrupt("nondecreasing snapshot ancestry"@)
            } else if id == ancestor {
                r matches Ok(DescentStep::Found)
            } else {
                r matches Ok(DescentStep::Up { parent, sequence }) && parent
                    == row.parent_snapshot_id && sequence == row.sequence_number
            },
        },
{
    match row {
        None => Err(corrupt("dangling snapshot ancestry")),
        Some(row) => {
            if row.sequence_number < 0 {
                return Err(corrupt("negative metadata integer"));
            }
            if row.sequence_number as u64 >= last {
                return Err(corrupt("nondecreasing snapshot ancestry"));
            }
            if id == ancestor {
                return Ok(DescentStep::Found);
            }
            Ok(
                DescentStep::Up {
                    parent: row.parent_snapshot_id,
                    sequence: row.sequence_number as u64,
                },
            )
        },
    }
}

/// Whether a walk from a tip comes to an ancestor.
pub open spec fn descent(rows: Seq<SnapshotRow>, tip: Option<Id>, ancestor: Id, last: int) -> Result<
    bool,
    ErrorView,
>
    decreases last,
{
    match tip {
        None => Ok(false),
        Some(id) => match snapshot_of(rows, id) {
            None => Err(ErrorView::Corrupt("dangling snapshot ancestry"@)),
            Some(row) => if row.sequence_number < 0 {
                Err(ErrorView::Corrupt("negative metadata integer"@))
            } else if row.sequence_number >= last {
                Err(ErrorView::Corrupt("nondecreasing snapshot ancestry"@))
            } else if id == ancestor {
                Ok(true)
            } else {
                descent(rows, row.parent_snapshot_id, ancestor, row.sequence_number as int)
            },
        },
    }
}

/// Whether a snapshot descends from another. A tip descends from itself, known
/// or not.
pub fn snapshot_descends_from(rows: &Vec<SnapshotRow>, tip: Option<Id>, ancestor: Id) -> (r: Result<
    bool,
    RuntimeError,
>)
    ensures
        match r {
            Ok(found) => if tip == Some(ancestor) {
                found
            } else {
                descent(rows@, tip, ancestor, u64::MAX as int) == Ok::<bool, ErrorView>(found)
            },
            Err(e) => tip != Some(ancestor) && descent(rows@, tip, ancestor, u64::MAX as int)
                == Err::<bool, ErrorView>(e@),
        },
{
    if let Some(id) = tip {
        if id == ancestor {
            return Ok(true);
        }
    }
    let ghost plan = descent(rows@, tip, ancestor, u64::MAX as int);
    let mut next: Option<Id> = tip;
    let mut last: u64 = u64::MAX;
    loop
        invariant
            tip != Some(ancestor),
            plan == descent(rows@, tip, ancestor, u64::MAX as int),
            plan == descent(rows@, next, ancestor, last as int),
        decreases last,
    {
        let id: Id = match next {
            None => {
                return Ok(false);
            },
            Some(id) => id,
        };
        match descent_step(snapshot_row(rows, &id), id, ancestor, last) {
            Err(e) => {
                return Err(e);
            },
            Ok(DescentStep::Found) => {
                return Ok(true);
            },
            Ok(DescentStep::Up { parent, sequence }) => {
                next = parent;
                last = sequence;
            },
        }
    }
}

/// Where the history of a tip is sound, a snapshot descends from exactly those
/// that its history holds.
pub proof fn lemma_descent_is_ancestry(rows: Seq<SnapshotRow>, tip: Option<Id>, ancestor: Id)
    ensures
        lineage(Walk::History, rows, tip, Seq::empty(), u64::MAX as int) matches Ok(chain)
            ==> descent(rows, tip, ancestor, u64::MAX as int) == Ok::<bool, ErrorView>(
            chain.contains(ancestor),
        ),
{
    let none: Seq<Id> = Seq::empty();
    assert(!none.contains(ancestor));
    lemma_descent_from(rows, tip, ancestor, none, u64::MAX as int);
}

proof fn lemma_descent_from(
    rows: Seq<SnapshotRow>,
    tip: Option<Id>,
    ancestor: Id,
    seen: Seq<Id>,
    last: int,
)
    requires
        !seen.contains(ancestor),
    ensures
        lineage(Walk::History, rows, tip, seen, last) matches Ok(chain) ==> descent(
            rows,
            tip,
            ancestor,
            last,
        ) == Ok::<bool, ErrorView>(chain.contains(ancestor)),
    decreases last,
{
    if let Ok(chain) = lineage(Walk::History, rows, tip, seen, last) {
        if let Some(id) = tip {
            let row = snapshot_of(rows, id)->0;
            if id == ancestor {
                assert(seen.push(id)[seen.len() as int] == id);
                lemma_lineage_keeps(
                    rows,
                    row.parent_snapshot_id,
                    seen.push(id),
                    row.sequence_number as int,
                    id,
                );
            } else {
                assert(!seen.push(id).contains(ancestor)) by {
                    if seen.push(id).contains(ancestor) {
                        let k = choose|k: int|
                            0 <= k < seen.push(id).len() && seen.push(id)[k] == ancestor;
                        assert(seen[k] == ancestor);
                    }
                }
                lemma_descent_from(
                    rows,
                    row.parent_snapshot_id,
                    ancestor,
                    seen.push(id),
                    row.sequence_number as int,
                );
            }
        }
    }
}

proof fn lemma_lineage_keeps(
    rows: Seq<SnapshotRow>,
    tip: Option<Id>,
    seen: Seq<Id>,
    last: int,
    id: Id,
)
    requires
        seen.contains(id),
    ensures
        lineage(Walk::History, rows, tip, seen, last) matches Ok(chain) ==> chain.contains(id),
    decreases last,
{
    if let Ok(chain) = lineage(Walk::History, rows, tip, seen, last) {
        if let Some(next) = tip {
            let row = snapshot_of(rows, next)->0;
            let k = choose|k: int| 0 <= k < seen.len() && seen[k] == id;
            assert(seen.push(next)[k] == id);
            lemma_lineage_keeps(
                rows,
                row.parent_snapshot_id,
                seen.push(next),
                row.sequence_number as int,
                id,
            );
        }
    }
}

} // verus!

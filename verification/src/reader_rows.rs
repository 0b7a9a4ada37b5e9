//! What the reader makes of the rows that list files, metrics and snapshots.
use crate::cells::{
    blob, blob_of, cell_accepted, cells_view, count_of, hash, hash_of, id, id_fault, id_of,
    is_null, natural_of, opt, text_cell, text_of, uint, Cell, CellView, IdRule,
};
use crate::error::{corrupt, exhausted, ErrorView, RuntimeError};
use crate::hash::{lemma_same_id, Id, Sha256};
use crate::history::{uri_accepted, uri_refused, LiveFile, TextCodec};
use crate::ranges::CanonicalRange;
use crate::text::reads;
use crate::value::CanonicalValue;
use vstd::prelude::*;

verus! {

/// The protocol refused the address in a value.
pub open spec fn address_refused<C: TextCodec>(codec: C, cell: CellView, e: RuntimeError) -> bool {
    exists|uri: String| is_text(cell, uri@) && #[trigger] uri_refused(codec, uri, e)
}

/// The value is an address that the protocol accepts.
pub open spec fn address_accepted<C: TextCodec>(codec: C, cell: CellView) -> bool {
    exists|uri: String| is_text(cell, uri@) && #[trigger] uri_accepted(codec, uri)
}

/// Why a value cannot be read as an address: it is no text, or the protocol refused
/// it.
pub open spec fn address_fault<C: TextCodec>(codec: C, cell: CellView, e: RuntimeError) -> bool {
    match text_of(cell) {
        Err(error) => e@ == error,
        Ok(_) => address_refused(codec, cell, e),
    }
}

/// A value that cannot be read, with the reason, or that is another than the one
/// wanted, for which `refusal` is the answer.
pub open spec fn differs<V>(
    read: Result<V, ErrorView>,
    wanted: V,
    refusal: ErrorView,
    e: ErrorView,
) -> bool {
    match read {
        Err(error) => e == error,
        Ok(value) => value != wanted && e == refusal,
    }
}

pub open spec fn is_text(cell: CellView, text: Seq<char>) -> bool {
    text_of(cell) == Ok::<Seq<char>, ErrorView>(text)
}

pub open spec fn is_number(cell: CellView, n: int) -> bool {
    natural_of(cell) matches Ok(value) && value == n
}

/// A digest that may be missing.
pub open spec fn digest_of(cell: CellView) -> Result<Option<Seq<u8>>, ErrorView> {
    if cell is Null {
        Ok(None)
    } else {
        match hash_of(cell) {
            Ok(bytes) => Ok(Some(bytes)),
            Err(e) => Err(e),
        }
    }
}

fn optional_hash(cell: &Cell) -> (r: Result<Option<Sha256>, RuntimeError>)
    ensures
        match r {
            Ok(None) => digest_of(cell@) == Ok::<Option<Seq<u8>>, ErrorView>(None),
            Ok(Some(hash)) => digest_of(cell@) == Ok::<Option<Seq<u8>>, ErrorView>(Some(hash@)),
            Err(e) => digest_of(cell@) == Err::<Option<Seq<u8>>, ErrorView>(e@),
        },
{
    if is_null(cell) {
        return Ok(None);
    }
    match hash(cell) {
        Ok(hash) => Ok(Some(hash)),
        Err(e) => Err(e),
    }
}

/// A file as the reader gives it out.
#[derive(Debug)]
pub struct ReaderFile {
    pub file: LiveFile,
    pub schema_id: u32,
}

/// Whether a row describes a live file of the profile, consistently.
pub open spec fn branch_row_ok(row: Seq<CellView>, table_version: u64) -> bool {
    &&& row.len() == 19
    &&& id_of(row[0]) is Ok
    &&& text_of(row[1]) is Ok
    &&& is_text(row[2], "parquet"@)
    &&& natural_of(row[3]) is Ok
    &&& natural_of(row[4]) is Ok
    &&& digest_of(row[5]) is Ok
    &&& natural_of(row[6]) matches Ok(sequence) && sequence != 0 && is_number(
        row[14],
        sequence as int,
    ) && is_number(row[17], sequence as int)
    &&& natural_of(row[7]) matches Ok(schema) && 0 < schema <= u32::MAX
    &&& is_text(row[8], "data"@)
    &&& row[9] is Null
    &&& is_number(row[10], 0)
    &&& is_number(row[11], 0)
    &&& row[12] is Null
    &&& id_of(row[13]) matches Ok(added) && id_of(row[15]) == Ok::<Seq<u8>, ErrorView>(added)
    &&& natural_of(row[16]) matches Ok(created) && created <= table_version && is_number(
        row[18],
        created as int,
    )
}

/// The file that a row describes.
pub open spec fn describes_file(
    file: ReaderFile,
    id: CellView,
    uri: CellView,
    format: CellView,
    size: CellView,
    records: CellView,
    content: CellView,
    sequence: CellView,
    schema: CellView,
) -> bool {
    &&& id_of(id) == Ok::<Seq<u8>, ErrorView>(file.file.file_id@)
    &&& is_text(uri, file.file.uri@)
    &&& is_text(format, file.file.file_format@)
    &&& is_number(size, file.file.file_size_bytes as int)
    &&& is_number(records, file.file.record_count as int)
    &&& digest_of(content) == Ok::<Option<Seq<u8>>, ErrorView>(
        match file.file.content_sha256 {
            None => None,
            Some(hash) => Some(hash@),
        },
    )
    &&& is_number(sequence, file.file.sequence_number as int)
    &&& is_number(schema, file.schema_id as int)
}

/// The first fault of the columns that describe a file.
pub open spec fn file_columns_fault<C: TextCodec>(
    codec: C,
    uri: CellView,
    format: CellView,
    size: CellView,
    records: CellView,
    content: CellView,
    schema: CellView,
    e: RuntimeError,
) -> bool {
    let addressed = address_accepted(codec, uri);
    let formatted = addressed && text_of(format) is Ok;
    let sized = formatted && natural_of(size) is Ok;
    let counted = sized && natural_of(records) is Ok;
    let hashed = counted && digest_of(content) is Ok;
    ||| address_fault(codec, uri, e)
    ||| addressed && text_of(format) == Err::<Seq<char>, ErrorView>(e@)
    ||| formatted && natural_of(size) == Err::<u64, ErrorView>(e@)
    ||| sized && natural_of(records) == Err::<u64, ErrorView>(e@)
    ||| counted && digest_of(content) == Err::<Option<Seq<u8>>, ErrorView>(e@)
    ||| hashed && match natural_of(schema) {
        Err(error) => e@ == error,
        Ok(n) => n > u32::MAX && e@ == ErrorView::Corrupt("schema ID"@),
    }
}

pub open spec fn inconsistent_live() -> ErrorView {
    ErrorView::Corrupt("unsupported or inconsistent live file"@)
}

/// The first fault of a row that lists a live file: its columns are read and
/// compared one by one, those of the profile before those of the file.
pub open spec fn branch_row_fault<C: IdRule + TextCodec>(
    codec: C,
    row: Seq<CellView>,
    table_version: u64,
    e: RuntimeError,
) -> bool {
    if row.len() != 19 || row[0] is Null {
        e@ == ErrorView::Corrupt("missing joined file descriptor"@)
    } else {
        let live = inconsistent_live();
        let named = cell_accepted(codec, row[0]);
        let sequenced = named && natural_of(row[6]) is Ok;
        let sequence = natural_of(row[6])->Ok_0;
        let data = sequenced && is_text(row[8], "data"@);
        let parquet = data && is_text(row[2], "parquet"@);
        let plain = parquet && row[9] is Null;
        let unpartitioned = plain && is_number(row[10], 0);
        let unsorted = unpartitioned && is_number(row[11], 0);
        let unencrypted = unsorted && row[12] is Null;
        let ordered = unencrypted && is_number(row[14], sequence as int);
        let positive = ordered && sequence != 0;
        let typed = positive && (natural_of(row[7]) matches Ok(n) && n != 0);
        let added = typed && cell_accepted(codec, row[13]);
        let created = added && cell_accepted(codec, row[15]);
        let joined = created && id_of(row[13]) == id_of(row[15]);
        let versioned = joined && natural_of(row[16]) is Ok;
        let version = natural_of(row[16])->Ok_0;
        let agreed = versioned && is_number(row[18], version as int);
        let present = agreed && version <= table_version;
        let filed = present && is_number(row[17], sequence as int);
        ||| id_fault(codec, row[0], e)
        ||| named && natural_of(row[6]) == Err::<u64, ErrorView>(e@)
        ||| sequenced && differs(text_of(row[8]), "data"@, live, e@)
        ||| data && differs(text_of(row[2]), "parquet"@, live, e@)
        ||| parquet && !(row[9] is Null) && e@ == live
        ||| plain && differs(natural_of(row[10]), 0, live, e@)
        ||| unpartitioned && differs(natural_of(row[11]), 0, live, e@)
        ||| unsorted && !(row[12] is Null) && e@ == live
        ||| unencrypted && differs(natural_of(row[14]), sequence, live, e@)
        ||| ordered && sequence == 0 && e@ == live
        ||| positive && match natural_of(row[7]) {
            Err(error) => e@ == error,
            Ok(n) => n == 0 && e@ == live,
        }
        ||| typed && id_fault(codec, row[13], e)
        ||| added && id_fault(codec, row[15], e)
        ||| created && !joined && e@ == live
        ||| joined && natural_of(row[16]) == Err::<u64, ErrorView>(e@)
        ||| versioned && differs(natural_of(row[18]), version, live, e@)
        ||| agreed && version > table_version && e@ == live
        ||| present && differs(natural_of(row[17]), sequence, live, e@)
        ||| filed && file_columns_fault(
            codec,
            row[1],
            row[2],
            row[3],
            row[4],
            row[5],
            row[7],
            e,
        )
    }
}

fn unsupported_live() -> (e: RuntimeError)
    ensures
        e@ == ErrorView::Corrupt("unsupported or inconsistent live file"@),
{
    corrupt("unsupported or inconsistent live file")
}

fn file_of_row<C: IdRule + TextCodec>(
    codec: &C,
    file_id: Id,
    uri: &Cell,
    format: &Cell,
    size: &Cell,
    records: &Cell,
    content: &Cell,
    sequence_number: u64,
    schema: &Cell,
) -> (r: Result<ReaderFile, RuntimeError>)
    ensures
        match r {
            Ok(file) => {
                &&& file.file.file_id == file_id
                &&& is_text(uri@, file.file.uri@)
                &&& is_text(format@, file.file.file_format@)
                &&& is_number(size@, file.file.file_size_bytes as int)
                &&& is_number(records@, file.file.record_count as int)
                &&& digest_of(content@) == Ok::<Option<Seq<u8>>, ErrorView>(
                    match file.file.content_sha256 {
                        None => None,
                        Some(hash) => Some(hash@),
                    },
                )
                &&& file.file.sequence_number == sequence_number
                &&& is_number(schema@, file.schema_id as int)
            },
            Err(e) => file_columns_fault(
                *codec,
                uri@,
                format@,
                size@,
                records@,
                content@,
                schema@,
                e,
            ),
        },
{
    let uri_text = text_cell(uri)?;
    let verdict = codec.check_uri(uri_text);
    if let Err(e) = verdict {
        assert(uri_refused(*codec, *uri_text, e));
        return Err(e);
    }
    assert(uri_accepted(*codec, *uri_text));
    let file_format = text_cell(format)?;
    let file_size_bytes: u64 = uint(size)?;
    let record_count: u64 = uint(records)?;
    let content_sha256 = optional_hash(content)?;
    let schema_number: u64 = uint(schema)?;
    if schema_number > u32::MAX as u64 {
        return Err(corrupt("schema ID"));
    }
    Ok(
        ReaderFile {
            file: LiveFile {
                file_id,
                uri: uri_text.clone(),
                file_format: file_format.clone(),
                file_size_bytes,
                record_count,
                content_sha256,
                sequence_number,
            },
            schema_id: schema_number as u32,
        },
    )
}

/// Reads a live file of a branch from its row.
#[verifier::rlimit(40)]
pub fn branch_file<C: IdRule + TextCodec>(codec: &C, row: &Vec<Cell>, table_version: u64) -> (r:
    Result<ReaderFile, RuntimeError>)
    ensures
        match r {
            Ok(file) => {
                let cells = cells_view(row@);
                &&& branch_row_ok(cells, table_version)
                &&& describes_file(
                    file,
                    cells[0],
                    cells[1],
                    cells[2],
                    cells[3],
                    cells[4],
                    cells[5],
                    cells[6],
                    cells[7],
                )
            },
            Err(e) => branch_row_fault(*codec, cells_view(row@), table_version, e),
        },
{
    let ghost cells = cells_view(row@);
    if row.len() != 19 || is_null(&row[0]) {
        return Err(corrupt("missing joined file descriptor"));
    }
    assert forall|i: int| 0 <= i < 19 implies #[trigger] cells[i] == row@[i]@ by {}
    let file_id: Id = id(codec, &row[0])?;
    let sequence: u64 = uint(&row[6])?;
    if !reads(text_cell(&row[8])?, "data") || !reads(text_cell(&row[2])?, "parquet") || !is_null(
        &row[9],
    ) {
        return Err(unsupported_live());
    }
    if uint(&row[10])? != 0 || uint(&row[11])? != 0 || !is_null(&row[12]) {
        return Err(unsupported_live());
    }
    if uint(&row[14])? != sequence || sequence == 0 || uint(&row[7])? == 0 {
        return Err(unsupported_live());
    }
    let added: Id = id(codec, &row[13])?;
    let created: Id = id(codec, &row[15])?;
    if !(added == created) {
        proof {
            if added@ == created@ {
                lemma_same_id(added, created);
            }
        }
        return Err(unsupported_live());
    }
    let created_version: u64 = uint(&row[16])?;
    if created_version != uint(&row[18])? || created_version > table_version || uint(&row[17])?
        != sequence {
        return Err(unsupported_live());
    }
    file_of_row(
        codec,
        file_id,
        &row[1],
        &row[2],
        &row[3],
        &row[4],
        &row[5],
        sequence,
        &row[7],
    )
}

/// A snapshot that files are read from.
#[derive(Clone, Copy, Debug)]
pub struct SnapshotPoint {
    pub snapshot_id: Id,
    pub parent_snapshot_id: Option<Id>,
    pub sequence_number: u64,
    pub committed_table_version: u64,
}

/// Whether a row describes a file that a snapshot added, in the profile.
pub open spec fn history_row_ok(row: Seq<CellView>, snapshot: SnapshotPoint) -> bool {
    &&& row.len() == 16
    &&& is_text(row[0], "add"@)
    &&& id_of(row[1]) is Ok
    &&& text_of(row[2]) is Ok
    &&& is_text(row[3], "parquet"@)
    &&& natural_of(row[4]) is Ok
    &&& natural_of(row[5]) is Ok
    &&& digest_of(row[6]) is Ok
    &&& is_number(row[7], snapshot.sequence_number as int)
    &&& natural_of(row[8]) matches Ok(schema) && 0 < schema <= u32::MAX
    &&& is_text(row[9], "data"@)
    &&& row[10] is Null
    &&& is_number(row[11], 0)
    &&& is_number(row[12], 0)
    &&& row[13] is Null
    &&& id_of(row[14]) == Ok::<Seq<u8>, ErrorView>(snapshot.snapshot_id@)
    &&& is_number(row[15], snapshot.committed_table_version as int)
}

pub open spec fn no_member() -> ErrorView {
    ErrorView::Corrupt("invalid historical file membership"@)
}

/// The first fault of a row that lists a file of a snapshot.
pub open spec fn history_row_fault<C: IdRule + TextCodec>(
    codec: C,
    row: Seq<CellView>,
    snapshot: SnapshotPoint,
    e: RuntimeError,
) -> bool {
    if row.len() != 16 || row[1] is Null {
        e@ == ErrorView::Corrupt("missing historical file descriptor"@)
    } else {
        let strange = no_member();
        let adds = is_text(row[0], "add"@);
        let named = adds && cell_accepted(codec, row[1]);
        let data = named && is_text(row[9], "data"@);
        let parquet = data && is_text(row[3], "parquet"@);
        let plain = parquet && row[10] is Null;
        let unpartitioned = plain && is_number(row[11], 0);
        let unsorted = unpartitioned && is_number(row[12], 0);
        let unencrypted = unsorted && row[13] is Null;
        let created = unencrypted && cell_accepted(codec, row[14]);
        let own = created && id_of(row[14]) == Ok::<Seq<u8>, ErrorView>(snapshot.snapshot_id@);
        let sequenced = own && is_number(row[7], snapshot.sequence_number as int);
        let typed = sequenced && (natural_of(row[8]) matches Ok(n) && n != 0);
        let versioned = typed && is_number(row[15], snapshot.committed_table_version as int);
        ||| differs(
            text_of(row[0]),
            "add"@,
            ErrorView::Corrupt("historical remove change is unsupported"@),
            e@,
        )
        ||| adds && id_fault(codec, row[1], e)
        ||| named && differs(text_of(row[9]), "data"@, strange, e@)
        ||| data && differs(text_of(row[3]), "parquet"@, strange, e@)
        ||| parquet && !(row[10] is Null) && e@ == strange
        ||| plain && differs(natural_of(row[11]), 0, strange, e@)
        ||| unpartitioned && differs(natural_of(row[12]), 0, strange, e@)
        ||| unsorted && !(row[13] is Null) && e@ == strange
        ||| unencrypted && id_fault(codec, row[14], e)
        ||| created && !own && e@ == strange
        ||| own && differs(natural_of(row[7]), snapshot.sequence_number, strange, e@)
        ||| sequenced && match natural_of(row[8]) {
            Err(error) => e@ == error,
            Ok(n) => n == 0 && e@ == strange,
        }
        ||| typed && differs(natural_of(row[15]), snapshot.committed_table_version, strange, e@)
        ||| versioned && file_columns_fault(
            codec,
            row[2],
            row[3],
            row[4],
            row[5],
            row[6],
            row[8],
            e,
        )
    }
}

fn invalid_membership() -> (e: RuntimeError)
    ensures
        e@ == ErrorView::Corrupt("invalid historical file membership"@),
{
    corrupt("invalid historical file membership")
}

/// Reads a file that a snapshot added from its row.
#[verifier::rlimit(40)]
pub fn historical_file<C: IdRule + TextCodec>(
    codec: &C,
    row: &Vec<Cell>,
    snapshot: &SnapshotPoint,
) -> (r: Result<ReaderFile, RuntimeError>)
    ensures
        match r {
            Ok(file) => {
                let cells = cells_view(row@);
                &&& history_row_ok(cells, *snapshot)
                &&& describes_file(
                    file,
                    cells[1],
                    cells[2],
                    cells[3],
                    cells[4],
                    cells[5],
                    cells[6],
                    cells[7],
                    cells[8],
                )
            },
            Err(e) => history_row_fault(*codec, cells_view(row@), *snapshot, e),
        },
{
    let ghost cells = cells_view(row@);
    if row.len() != 16 || is_null(&row[1]) {
        return Err(corrupt("missing historical file descriptor"));
    }
    assert forall|i: int| 0 <= i < 16 implies #[trigger] cells[i] == row@[i]@ by {}
    if !reads(text_cell(&row[0])?, "add") {
        return Err(corrupt("historical remove change is unsupported"));
    }
    let file_id: Id = id(codec, &row[1])?;
    if !reads(text_cell(&row[9])?, "data") || !reads(text_cell(&row[3])?, "parquet") || !is_null(
        &row[10],
    ) {
        return Err(invalid_membership());
    }
    if uint(&row[11])? != 0 || uint(&row[12])? != 0 || !is_null(&row[13]) {
        return Err(invalid_membership());
    }
    let created: Id = id(codec, &row[14])?;
    if !(created == snapshot.snapshot_id) {
        proof {
            if created@ == snapshot.snapshot_id@ {
                lemma_same_id(created, snapshot.snapshot_id);
            }
        }
        return Err(invalid_membership());
    }
    let sequence: u64 = uint(&row[7])?;
    if sequence != snapshot.sequence_number || uint(&row[8])? == 0 || uint(&row[15])?
        != snapshot.committed_table_version {
        return Err(invalid_membership());
    }
    file_of_row(
        codec,
        file_id,
        &row[2],
        &row[3],
        &row[4],
        &row[5],
        &row[6],
        sequence,
        &row[8],
    )
}

/// Where a listing goes on.
#[derive(Clone, Copy, Debug)]
pub enum CursorState {
    Branch { file: Id },
    Snapshot { snapshot: Id, before_sequence: u64, file: Option<Id> },
}

/// Where a listing goes on, for which reader and under which conditions.
#[derive(Debug)]
pub struct FileCursor {
    pub pin: Id,
    pub ranges: Vec<CanonicalRange>,
    pub state: CursorState,
}

pub open spec fn distinct(fields: Seq<u32>) -> bool {
    forall|i: int, j: int|
        #![trigger fields[i], fields[j]]
        0 <= i < j < fields.len() ==> fields[i] != fields[j]
}

fn are_distinct(fields: &Vec<u32>) -> (distinct_so: bool)
    ensures
        distinct_so == distinct(fields@),
{
    let mut i: usize = 0;
    while i < fields.len()
        invariant
            i <= fields@.len(),
            forall|a: int, b: int|
                #![trigger fields@[a], fields@[b]]
                0 <= a < b < i ==> fields@[a] != fields@[b],
        decreases fields@.len() - i,
    {
        let mut k: usize = 0;
        while k < i
            invariant
                k <= i,
                i < fields@.len(),
                forall|a: int| 0 <= a < k ==> #[trigger] fields@[a] != fields@[i as int],
            decreases i - k,
        {
            if fields[k] == fields[i] {
                return false;
            }
            k = k + 1;
        }
        i = i + 1;
    }
    true
}

fn same_ranges(a: &Vec<CanonicalRange>, b: &Vec<CanonicalRange>) -> (same: bool)
    ensures
        same == (a@ == b@),
{
    if a.len() != b.len() {
        return false;
    }
    let mut i: usize = 0;
    while i < a.len()
        invariant
            i <= a@.len(),
            a@.len() == b@.len(),
            forall|k: int| 0 <= k < i ==> #[trigger] a@[k] == b@[k],
        decreases a@.len() - i,
    {
        if a[i] != b[i] {
            return false;
        }
        i = i + 1;
    }
    assert(a@ =~= b@);
    true
}

/// Whether a listing may be asked for like this.
pub open spec fn listing_check(
    limit: usize,
    fields: Seq<u32>,
) -> Result<(), ErrorView> {
    if limit == 0 || limit > 256 {
        Err(ErrorView::ResourceExhausted("file batch limit must be 1..=256"@))
    } else if !distinct(fields) {
        Err(ErrorView::Corrupt("duplicate requested metric field"@))
    } else if fields.len() > 4096 {
        Err(ErrorView::ResourceExhausted("metric field batch limit is 4096"@))
    } else {
        Ok(())
    }
}

/// Checks the size of a listing and the columns whose metrics it asks for.
pub fn check_listing(limit: usize, fields: &Vec<u32>) -> (r: Result<(), RuntimeError>)
    ensures
        match r {
            Ok(()) => listing_check(limit, fields@) is Ok,
            Err(e) => listing_check(limit, fields@) == Err::<(), ErrorView>(e@),
        },
{
    if limit == 0 || limit > 256 {
        return Err(exhausted("file batch limit must be 1..=256"));
    }
    if !are_distinct(fields) {
        return Err(corrupt("duplicate requested metric field"));
    }
    if fields.len() > 4096 {
        return Err(exhausted("metric field batch limit is 4096"));
    }
    Ok(())
}

/// Whether a cursor fits the reader that it is handed to.
pub open spec fn cursor_check(
    cursor: FileCursor,
    pin: Id,
    ranges: Seq<CanonicalRange>,
    branch: bool,
) -> Result<(), ErrorView> {
    if cursor.pin != pin {
        Err(ErrorView::Corrupt("file cursor belongs to another reader"@))
    } else if cursor.ranges@ != ranges {
        Err(ErrorView::Corrupt("file cursor range set changed"@))
    } else if (cursor.state is Branch) != branch {
        Err(ErrorView::Corrupt("cursor mode differs from selected ref"@))
    } else {
        Ok(())
    }
}

/// Checks that a cursor came from this reader, for this listing.
pub fn check_cursor(
    cursor: &FileCursor,
    pin: Id,
    ranges: &Vec<CanonicalRange>,
    branch: bool,
) -> (r: Result<(), RuntimeError>)
    ensures
        match r {
            Ok(()) => cursor_check(*cursor, pin, ranges@, branch) is Ok,
            Err(e) => cursor_check(*cursor, pin, ranges@, branch) == Err::<(), ErrorView>(e@),
        },
{
    if !(cursor.pin == pin) {
        return Err(corrupt("file cursor belongs to another reader"));
    }
    if !same_ranges(&cursor.ranges, ranges) {
        return Err(corrupt("file cursor range set changed"));
    }
    let on_branch: bool = match cursor.state {
        CursorState::Branch { .. } => true,
        CursorState::Snapshot { .. } => false,
    };
    if on_branch != branch {
        return Err(corrupt("cursor mode differs from selected ref"));
    }
    Ok(())
}

/// Where a listing over a history starts or goes on.
pub open spec fn history_start(
    selected: Option<SnapshotPoint>,
    cursor: Option<CursorState>,
) -> Result<(Id, u64, Option<Id>), ErrorView> {
    match selected {
        None => Err(ErrorView::Corrupt("empty snapshot has no historical cursor"@)),
        Some(point) => match cursor {
            None => Ok((point.snapshot_id, point.sequence_number, None)),
            Some(CursorState::Snapshot { snapshot, before_sequence, file }) => Ok(
                (snapshot, before_sequence, file),
            ),
            Some(CursorState::Branch { .. }) => Err(
                ErrorView::Corrupt("cursor mode differs from historical selection"@),
            ),
        },
    }
}

pub fn start_history(selected: &Option<SnapshotPoint>, cursor: &Option<CursorState>) -> (r: Result<
    (Id, u64, Option<Id>),
    RuntimeError,
>)
    ensures
        match r {
            Ok(start) => history_start(*selected, *cursor) == Ok::<
                (Id, u64, Option<Id>),
                ErrorView,
            >(start),
            Err(e) => history_start(*selected, *cursor) == Err::<
                (Id, u64, Option<Id>),
                ErrorView,
            >(e@),
        },
{
    match selected {
        None => Err(corrupt("empty snapshot has no historical cursor")),
        Some(point) => match cursor {
            None => Ok((point.snapshot_id, point.sequence_number, None)),
            Some(CursorState::Snapshot { snapshot, before_sequence, file }) => Ok(
                (*snapshot, *before_sequence, *file),
            ),
            Some(CursorState::Branch { .. }) => Err(
                corrupt("cursor mode differs from historical selection"),
            ),
        },
    }
}

/// Checks the snapshot that a cursor stands at.
pub fn check_history_point(point: &SnapshotPoint, before: u64, table_version: u64) -> (r: Result<
    (),
    RuntimeError,
>)
    ensures
        match r {
            Ok(()) => point.sequence_number == before && point.committed_table_version
                <= table_version,
            Err(e) => {
                &&& point.sequence_number != before || point.committed_table_version
                    > table_version
                &&& e@ == ErrorView::Corrupt("historical cursor descriptor mismatch"@)
            },
        },
{
    if point.sequence_number != before || point.committed_table_version > table_version {
        return Err(corrupt("historical cursor descriptor mismatch"));
    }
    Ok(())
}

/// What a listing over a history does after a batch.
#[derive(Clone, Copy, Debug)]
pub enum HistoryNext {
    /// Goes on in the same snapshot.
    Here(CursorState),
    /// Goes on with the parent, once it is known.
    Parent(Id),
    End,
}

/// After a batch of `count` files, the last of which was `last`.
pub fn after_history_batch(
    point: &SnapshotPoint,
    count: usize,
    limit: usize,
    last: Option<Id>,
) -> (next: Option<HistoryNext>)
    ensures
        match next {
            Some(HistoryNext::Here(state)) => count == limit && last is Some && state == (
            CursorState::Snapshot {
                snapshot: point.snapshot_id,
                before_sequence: point.sequence_number,
                file: last,
            }),
            Some(HistoryNext::Parent(parent)) => count != limit && point.parent_snapshot_id == Some(
                parent,
            ),
            Some(HistoryNext::End) => count != limit && point.parent_snapshot_id is None,
            None => count == limit && last is None,
        },
{
    if count == limit {
        return match last {
            None => None,
            Some(file) => Some(
                HistoryNext::Here(
                    CursorState::Snapshot {
                        snapshot: point.snapshot_id,
                        before_sequence: point.sequence_number,
                        file: Some(file),
                    },
                ),
            ),
        };
    }
    match point.parent_snapshot_id {
        Some(parent) => Some(HistoryNext::Parent(parent)),
        None => Some(HistoryNext::End),
    }
}

/// Goes on with the parent of a snapshot. Sequence numbers fall from snapshot
/// to parent, so a listing comes to an end.
pub fn step_to_parent(parent: &SnapshotPoint, before: u64, table_version: u64) -> (r: Result<
    CursorState,
    RuntimeError,
>)
    ensures
        match r {
            Ok(state) => {
                &&& parent.sequence_number < before
                &&& parent.committed_table_version <= table_version
                &&& state == (CursorState::Snapshot {
                    snapshot: parent.snapshot_id,
                    before_sequence: parent.sequence_number,
                    file: None,
                })
            },
            Err(e) => {
                &&& parent.sequence_number >= before || parent.committed_table_version
                    > table_version
                &&& e@ == ErrorView::Corrupt("nonmonotone historical parent"@)
            },
        },
{
    if parent.sequence_number >= before || parent.committed_table_version > table_version {
        return Err(corrupt("nonmonotone historical parent"));
    }
    Ok(
        CursorState::Snapshot {
            snapshot: parent.snapshot_id,
            before_sequence: parent.sequence_number,
            file: None,
        },
    )
}

/// One query for metrics: some files of a batch, and one column.
#[derive(Clone, Copy, Debug, PartialEq, Eq, Structural)]
pub struct MetricOperation {
    pub offset: usize,
    pub count: usize,
    pub field: u32,
}

/// How many groups of sixteen a number of files makes.
pub open spec fn groups(files: int) -> int {
    (files + 15) / 16
}

/// The query at a place: group by group, and column by column in each.
pub open spec fn operation_at(files: int, fields: Seq<u32>, n: int) -> MetricOperation {
    let offset = (n / (fields.len() as int)) * 16;
    MetricOperation {
        offset: offset as usize,
        count: (if offset + 16 <= files {
            16int
        } else {
            files - offset
        }) as usize,
        field: fields[n % (fields.len() as int)],
    }
}

/// The queries for the metrics of some columns over a batch of files.
pub fn metric_operations(files: usize, fields: &Vec<u32>) -> (operations: Vec<MetricOperation>)
    requires
        files <= 256,
        fields@.len() <= 4096,
    ensures
        operations@.len() == groups(files as int) * fields@.len(),
        forall|n: int|
            0 <= n < operations@.len() ==> #[trigger] operations@[n] == operation_at(
                files as int,
                fields@,
                n,
            ),
{
    let mut operations: Vec<MetricOperation> = Vec::new();
    let count: usize = (files + 15) / 16;
    let width: usize = fields.len();
    let mut group: usize = 0;
    assert(0 * width == 0) by (nonlinear_arith);
    while group < count
        invariant
            files <= 256,
            width == fields@.len(),
            width <= 4096,
            count == groups(files as int),
            group <= count,
            operations@.len() == group * width,
            forall|n: int|
                0 <= n < operations@.len() ==> #[trigger] operations@[n] == operation_at(
                    files as int,
                    fields@,
                    n,
                ),
        decreases count - group,
    {
        let offset: usize = group * 16;
        let size: usize = if offset + 16 <= files {
            16
        } else {
            files - offset
        };
        let mut i: usize = 0;
        while i < width
            invariant
                files <= 256,
                width == fields@.len(),
                width <= 4096,
                count == groups(files as int),
                group < count,
                offset == group * 16,
                size == if offset + 16 <= files {
                    16
                } else {
                    files - offset
                },
                offset <= files,
                i <= width,
                operations@.len() == group * width + i,
                forall|n: int|
                    0 <= n < operations@.len() ==> #[trigger] operations@[n] == operation_at(
                        files as int,
                        fields@,
                        n,
                    ),
            decreases width - i,
        {
            let ghost n = operations@.len() as int;
            proof {
                let w = width as int;
                let g = group as int;
                let k = i as int;
                vstd::arithmetic::div_mod::lemma_fundamental_div_mod_converse(g * w + k, w, g, k);
            }
            operations.push(MetricOperation { offset, count: size, field: fields[i] });
            i = i + 1;
        }
        group = group + 1;
        assert((group - 1) * width + width == group * width) by (nonlinear_arith)
            requires
                group >= 1,
        ;
    }
    operations
}

/// Every file of a batch and every column are asked for together once, and no
/// query asks for more than sixteen files.
pub proof fn lemma_metrics_are_covered(files: int, fields: Seq<u32>, file: int, column: int)
    requires
        0 <= file < files <= 256,
        0 <= column < fields.len(),
    ensures
        ({
            let n = (file / 16) * fields.len() + column;
            let operation = operation_at(files, fields, n);
            &&& 0 <= n < groups(files) * fields.len()
            &&& operation.offset <= file < operation.offset + operation.count
            &&& operation.count <= 16
            &&& operation.field == fields[column]
        }),
        forall|m: int|
            0 <= m < groups(files) * fields.len() && #[trigger] operation_at(
                files,
                fields,
                m,
            ).offset <= file < operation_at(files, fields, m).offset + operation_at(
                files,
                fields,
                m,
            ).count && m % (fields.len() as int) == column ==> m == (file / 16) * fields.len()
                + column,
{
    let w = fields.len() as int;
    let g = file / 16;
    let n = g * w + column;
    vstd::arithmetic::div_mod::lemma_fundamental_div_mod_converse(n, w, g, column);
    assert(g < groups(files));
    assert(0 <= g * w && g * w + w <= groups(files) * w) by (nonlinear_arith)
        requires
            0 <= g < groups(files),
            w > 0,
    ;
    assert forall|m: int|
        0 <= m < groups(files) * fields.len() && #[trigger] operation_at(files, fields, m).offset
            <= file < operation_at(files, fields, m).offset + operation_at(
            files,
            fields,
            m,
        ).count && m % w == column implies m == n by {
        let q = m / w;
        vstd::arithmetic::div_mod::lemma_fundamental_div_mod(m, w);
        assert(0 <= q) by {
            vstd::arithmetic::div_mod::lemma_div_pos_is_pos(m, w);
        }
        assert(q < groups(files)) by (nonlinear_arith)
            requires
                m < groups(files) * w,
                m == w * q + m % w,
                0 <= m % w,
                w > 0,
        ;
        assert(q == g);
        assert(w * q == q * w) by (nonlinear_arith);
    }
}

/// Finds the file of a batch that a metric belongs to.
pub fn metric_position(requested: &Vec<Id>, file_id: &Id) -> (r: Result<usize, RuntimeError>)
    ensures
        match r {
            Ok(at) => at < requested@.len() && requested@[at as int] == *file_id && forall|k: int|
                0 <= k < at ==> #[trigger] requested@[k] != *file_id,
            Err(e) => !requested@.contains(*file_id) && e@ == ErrorView::Corrupt(
                "metric belongs to an unrequested file"@,
            ),
        },
{
    let mut i: usize = 0;
    while i < requested.len()
        invariant
            i <= requested@.len(),
            forall|k: int| 0 <= k < i ==> #[trigger] requested@[k] != *file_id,
        decreases requested@.len() - i,
    {
        if requested[i] == *file_id {
            return Ok(i);
        }
        i = i + 1;
    }
    Err(corrupt("metric belongs to an unrequested file"))
}

/// What a metric takes of the budget: four times its serialized length and 256.
pub open spec fn metric_cost(length: nat) -> nat {
    let cost = length * 4 + 256;
    if cost > usize::MAX {
        usize::MAX as nat
    } else {
        cost
    }
}

pub fn metric_charge(serialized: usize) -> (charge: usize)
    ensures
        charge == metric_cost(serialized as nat),
{
    if serialized > (usize::MAX - 256) / 4 {
        usize::MAX
    } else {
        serialized * 4 + 256
    }
}

/// The protocol's reading of stored bounds.
pub trait ScalarCodec {
    /// The scalar that stored bytes stand for.
    fn decode_scalar(&self, bytes: &Vec<u8>) -> Result<CanonicalValue, RuntimeError>;
}

/// A metric as the reader gives it out.
#[derive(Debug)]
pub struct ReaderMetric {
    pub field_id: u32,
    pub column_size_bytes: Option<u64>,
    pub value_count: Option<u64>,
    pub null_count: Option<u64>,
    pub nan_count: Option<u64>,
    pub distinct_count: Option<u64>,
    pub lower_bound: Option<CanonicalValue>,
    pub upper_bound: Option<CanonicalValue>,
    pub metadata: CanonicalValue,
}

/// What a codec reads a stored bound as, right or wrong.
pub open spec fn bound_read<C: ScalarCodec>(
    codec: C,
    cell: CellView,
    read: Result<CanonicalValue, RuntimeError>,
) -> bool {
    exists|bytes: Vec<u8>|
        blob_of(cell) == Ok::<Seq<u8>, ErrorView>(bytes@) && #[trigger] call_ensures(
            C::decode_scalar,
            (&codec, &bytes),
            read,
        )
}

/// What a codec reads stored metadata as, right or wrong.
pub open spec fn metadata_read<C: TextCodec>(
    codec: C,
    cell: CellView,
    read: Result<CanonicalValue, RuntimeError>,
) -> bool {
    exists|text: String|
        is_text(cell, text@) && #[trigger] call_ensures(C::parse, (&codec, &text), read)
}

/// A bound that may be missing.
pub open spec fn bound_is<C: ScalarCodec>(
    codec: C,
    cell: CellView,
    bound: Option<CanonicalValue>,
) -> bool {
    match bound {
        None => cell is Null,
        Some(value) => !(cell is Null) && bound_read(codec, cell, Ok(value)),
    }
}

pub open spec fn bound_readable<C: ScalarCodec>(codec: C, cell: CellView) -> bool {
    exists|bound: Option<CanonicalValue>| #[trigger] bound_is(codec, cell, bound)
}

/// Why a bound cannot be read: it is no blob, or the codec refused it.
pub open spec fn bound_fault<C: ScalarCodec>(codec: C, cell: CellView, e: RuntimeError) -> bool {
    &&& !(cell is Null)
    &&& match blob_of(cell) {
        Err(error) => e@ == error,
        Ok(_) => bound_read(codec, cell, Err(e)),
    }
}

fn read_bound<C: ScalarCodec>(codec: &C, cell: &Cell) -> (r: Result<
    Option<CanonicalValue>,
    RuntimeError,
>)
    ensures
        match r {
            Ok(bound) => bound_is(*codec, cell@, bound),
            Err(e) => bound_fault(*codec, cell@, e),
        },
{
    if is_null(cell) {
        return Ok(None);
    }
    let bytes = match blob(cell) {
        Err(e) => {
            return Err(e);
        },
        Ok(bytes) => bytes,
    };
    let read = codec.decode_scalar(bytes);
    assert(bound_read(*codec, cell@, read));
    match read {
        Ok(value) => Ok(Some(value)),
        Err(e) => Err(e),
    }
}

/// A metric that says what its row says.
pub open spec fn metric_is<C: ScalarCodec + TextCodec>(
    codec: C,
    row: Seq<CellView>,
    metric: ReaderMetric,
) -> bool {
    &&& is_number(row[0], metric.field_id as int)
    &&& count_of(row[1]) == Ok::<Option<u64>, ErrorView>(metric.column_size_bytes)
    &&& count_of(row[2]) == Ok::<Option<u64>, ErrorView>(metric.value_count)
    &&& count_of(row[3]) == Ok::<Option<u64>, ErrorView>(metric.null_count)
    &&& count_of(row[4]) == Ok::<Option<u64>, ErrorView>(metric.nan_count)
    &&& count_of(row[5]) == Ok::<Option<u64>, ErrorView>(metric.distinct_count)
    &&& bound_is(codec, row[6], metric.lower_bound)
    &&& bound_is(codec, row[7], metric.upper_bound)
    &&& metadata_read(codec, row[8], Ok(metric.metadata))
}

/// The first of the counts of a row that is not one.
pub open spec fn count_fault(row: Seq<CellView>) -> Option<ErrorView> {
    if count_of(row[1]) is Err {
        Some(count_of(row[1])->Err_0)
    } else if count_of(row[2]) is Err {
        Some(count_of(row[2])->Err_0)
    } else if count_of(row[3]) is Err {
        Some(count_of(row[3])->Err_0)
    } else if count_of(row[4]) is Err {
        Some(count_of(row[4])->Err_0)
    } else if count_of(row[5]) is Err {
        Some(count_of(row[5])->Err_0)
    } else {
        None
    }
}

/// The first of the reasons why a row holds no metric.
pub open spec fn metric_fault<C: ScalarCodec + TextCodec>(
    codec: C,
    row: Seq<CellView>,
    e: RuntimeError,
) -> bool {
    match natural_of(row[0]) {
        Err(fault) => e@ == fault,
        Ok(field) => if field > u32::MAX {
            e@ == ErrorView::Corrupt("metric field"@)
        } else {
            match count_fault(row) {
                Some(fault) => e@ == fault,
                None => {
                    let lower = bound_readable(codec, row[6]);
                    let upper = lower && bound_readable(codec, row[7]);
                    ||| bound_fault(codec, row[6], e)
                    ||| lower && bound_fault(codec, row[7], e)
                    ||| upper && text_of(row[8]) == Err::<Seq<char>, ErrorView>(e@)
                    ||| upper && metadata_read(codec, row[8], Err(e))
                },
            }
        },
    }
}

/// Reads a metric from its row.
pub fn decode_metric<C: ScalarCodec + TextCodec>(codec: &C, row: &Vec<Cell>) -> (r: Result<
    ReaderMetric,
    RuntimeError,
>)
    requires
        row@.len() >= 9,
    ensures
        match r {
            Ok(metric) => metric_is(*codec, cells_view(row@), metric),
            Err(e) => metric_fault(*codec, cells_view(row@), e),
        },
{
    let ghost cells = cells_view(row@);
    let field: u64 = match uint(&row[0]) {
        Err(e) => {
            return Err(e);
        },
        Ok(n) => n,
    };
    if field > u32::MAX as u64 {
        return Err(corrupt("metric field"));
    }
    let column_size_bytes = match opt(&row[1]) {
        Err(e) => {
            return Err(e);
        },
        Ok(n) => n,
    };
    let value_count = match opt(&row[2]) {
        Err(e) => {
            return Err(e);
        },
        Ok(n) => n,
    };
    let null_count = match opt(&row[3]) {
        Err(e) => {
            return Err(e);
        },
        Ok(n) => n,
    };
    let nan_count = match opt(&row[4]) {
        Err(e) => {
            return Err(e);
        },
        Ok(n) => n,
    };
    let distinct_count = match opt(&row[5]) {
        Err(e) => {
            return Err(e);
        },
        Ok(n) => n,
    };
    let lower_bound = match read_bound(codec, &row[6]) {
        Err(e) => {
            return Err(e);
        },
        Ok(bound) => bound,
    };
    let upper_bound = match read_bound(codec, &row[7]) {
        Err(e) => {
            return Err(e);
        },
        Ok(bound) => bound,
    };
    let text = match text_cell(&row[8]) {
        Err(e) => {
            return Err(e);
        },
        Ok(text) => text,
    };
    let read = codec.parse(text);
    assert(metadata_read(*codec, cells[8], read));
    let metadata = match read {
        Err(e) => {
            return Err(e);
        },
        Ok(value) => value,
    };
    Ok(
        ReaderMetric {
            field_id: field as u32,
            column_size_bytes,
            value_count,
            null_count,
            nan_count,
            distinct_count,
            lower_bound,
            upper_bound,
            metadata,
        },
    )
}

/// What the rows of a listing take while they are decoded: eight times their
/// bytes, and a page at least.
pub fn descriptor_charge(bytes: usize) -> (charge: usize)
    ensures
        charge == (if bytes * 8 > usize::MAX {
            usize::MAX as int
        } else if bytes * 8 < 4096 {
            4096
        } else {
            bytes * 8
        }),
{
    if bytes > usize::MAX / 8 {
        usize::MAX
    } else if bytes * 8 < 4096 {
        4096
    } else {
        bytes * 8
    }
}

} // verus!

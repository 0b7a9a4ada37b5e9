//! The values of a query's rows, and what they may be read as.
use crate::error::{corrupt, ErrorView, RuntimeError};
use crate::hash::{Id, Sha256};
use crate::tables::{hash_from_blob, id_from_blob};
use crate::text::joined;
use vstd::prelude::*;

verus! {

/// A value of a row. Fractional numbers occur in no row that is read, so only
/// their being there matters.
#[derive(Debug)]
pub enum Cell {
    Null,
    Integer(i64),
    Real,
    Text(String),
    Blob(Vec<u8>),
}

/// A value of a row with its contents.
pub enum CellView {
    Null,
    Integer(i64),
    Real,
    Text(Seq<char>),
    Blob(Seq<u8>),
}

impl View for Cell {
    type V = CellView;

    open spec fn view(&self) -> CellView {
        match *self {
            Cell::Null => CellView::Null,
            Cell::Integer(n) => CellView::Integer(n),
            Cell::Real => CellView::Real,
            Cell::Text(text) => CellView::Text(text@),
            Cell::Blob(bytes) => CellView::Blob(bytes@),
        }
    }
}

pub open spec fn cells_view(cells: Seq<Cell>) -> Seq<CellView> {
    Seq::new(cells.len(), |i: int| cells[i]@)
}

pub fn is_null(cell: &Cell) -> (null: bool)
    ensures
        null == (cell@ is Null),
{
    match cell {
        Cell::Null => true,
        _ => false,
    }
}

pub open spec fn integer_of(cell: CellView) -> Result<i64, ErrorView> {
    match cell {
        CellView::Integer(n) => Ok(n),
        _ => Err(ErrorView::Corrupt("metadata integer has invalid type"@)),
    }
}

pub fn signed_cell(cell: &Cell) -> (r: Result<i64, RuntimeError>)
    ensures
        match r {
            Ok(n) => integer_of(cell@) == Ok::<i64, ErrorView>(n),
            Err(e) => integer_of(cell@) == Err::<i64, ErrorView>(e@),
        },
{
    match cell {
        Cell::Integer(n) => Ok(*n),
        _ => Err(corrupt("metadata integer has invalid type")),
    }
}

pub open spec fn natural_of(cell: CellView) -> Result<u64, ErrorView> {
    match integer_of(cell) {
        Err(e) => Err(e),
        Ok(n) => if n < 0 {
            Err(ErrorView::Corrupt("negative metadata integer"@))
        } else {
            Ok(n as u64)
        },
    }
}

pub fn uint(cell: &Cell) -> (r: Result<u64, RuntimeError>)
    ensures
        match r {
            Ok(n) => natural_of(cell@) == Ok::<u64, ErrorView>(n),
            Err(e) => natural_of(cell@) == Err::<u64, ErrorView>(e@),
        },
{
    match signed_cell(cell) {
        Err(e) => Err(e),
        Ok(n) => if n < 0 {
            Err(corrupt("negative metadata integer"))
        } else {
            Ok(n as u64)
        },
    }
}

pub open spec fn text_of(cell: CellView) -> Result<Seq<char>, ErrorView> {
    match cell {
        CellView::Text(text) => Ok(text),
        _ => Err(ErrorView::Corrupt("metadata text has invalid type"@)),
    }
}

pub fn text_cell(cell: &Cell) -> (r: Result<&String, RuntimeError>)
    ensures
        match r {
            Ok(text) => text_of(cell@) == Ok::<Seq<char>, ErrorView>(text@),
            Err(e) => text_of(cell@) == Err::<Seq<char>, ErrorView>(e@),
        },
{
    match cell {
        Cell::Text(text) => Ok(text),
        _ => Err(corrupt("metadata text has invalid type")),
    }
}

pub open spec fn blob_of(cell: CellView) -> Result<Seq<u8>, ErrorView> {
    match cell {
        CellView::Blob(bytes) => Ok(bytes),
        _ => Err(ErrorView::Corrupt("metadata blob has invalid type"@)),
    }
}

pub fn blob(cell: &Cell) -> (r: Result<&Vec<u8>, RuntimeError>)
    ensures
        match r {
            Ok(bytes) => blob_of(cell@) == Ok::<Seq<u8>, ErrorView>(bytes@),
            Err(e) => blob_of(cell@) == Err::<Seq<u8>, ErrorView>(e@),
        },
{
    match cell {
        Cell::Blob(bytes) => Ok(bytes),
        _ => Err(corrupt("metadata blob has invalid type")),
    }
}

/// The bytes of an identifier or a digest, if there are as many as it has.
pub open spec fn sized_blob(cell: CellView, size: nat, message: Seq<char>) -> Result<
    Seq<u8>,
    ErrorView,
> {
    match blob_of(cell) {
        Err(e) => Err(e),
        Ok(bytes) => if bytes.len() == size {
            Ok(bytes)
        } else {
            Err(ErrorView::Corrupt(message))
        },
    }
}

pub open spec fn id_of(cell: CellView) -> Result<Seq<u8>, ErrorView> {
    sized_blob(cell, 16, "invalid metadata ID"@)
}

pub open spec fn hash_of(cell: CellView) -> Result<Seq<u8>, ErrorView> {
    sized_blob(cell, 32, "invalid metadata hash"@)
}

/// The protocol's rule on identifiers.
pub trait IdRule {
    fn check_id(&self, id: &Id) -> Result<(), RuntimeError>;
}

pub open spec fn id_refused<C: IdRule>(codec: C, id: Id, e: RuntimeError) -> bool {
    call_ensures(C::check_id, (&codec, &id), Err::<(), RuntimeError>(e))
}

/// The protocol refused the identifier in a value.
pub open spec fn cell_refused<C: IdRule>(codec: C, cell: CellView, e: RuntimeError) -> bool {
    exists|id: Id|
        id_of(cell) == Ok::<Seq<u8>, ErrorView>(id@) && #[trigger] id_refused(codec, id, e)
}

pub open spec fn id_accepted<C: IdRule>(codec: C, id: Id) -> bool {
    exists|verdict: Result<(), RuntimeError>|
        verdict is Ok && #[trigger] call_ensures(C::check_id, (&codec, &id), verdict)
}

/// The value is an identifier that the protocol accepts.
pub open spec fn cell_accepted<C: IdRule>(codec: C, cell: CellView) -> bool {
    exists|id: Id|
        id_of(cell) == Ok::<Seq<u8>, ErrorView>(id@) && #[trigger] id_accepted(codec, id)
}

/// Why a value cannot be read as an identifier: it has not the form of one, or the
/// protocol refused it.
pub open spec fn id_fault<C: IdRule>(codec: C, cell: CellView, e: RuntimeError) -> bool {
    match id_of(cell) {
        Err(error) => e@ == error,
        Ok(_) => cell_refused(codec, cell, e),
    }
}

/// An identifier that the protocol accepts.
pub fn id<C: IdRule>(codec: &C, cell: &Cell) -> (r: Result<Id, RuntimeError>)
    ensures
        match r {
            Ok(id) => id_of(cell@) == Ok::<Seq<u8>, ErrorView>(id@) && cell_accepted(*codec, cell@),
            Err(e) => id_fault(*codec, cell@, e),
        },
{
    let bytes = match blob(cell) {
        Err(e) => {
            return Err(e);
        },
        Ok(bytes) => bytes,
    };
    match id_from_blob(bytes) {
        Err(_) => Err(corrupt("invalid metadata ID")),
        Ok(id) => {
            let verdict = codec.check_id(&id);
            match verdict {
                Err(e) => {
                    assert(id_refused(*codec, id, e));
                    Err(e)
                },
                Ok(_) => {
                    assert(id_accepted(*codec, id));
                    Ok(id)
                },
            }
        },
    }
}

pub fn hash(cell: &Cell) -> (r: Result<Sha256, RuntimeError>)
    ensures
        match r {
            Ok(hash) => hash_of(cell@) == Ok::<Seq<u8>, ErrorView>(hash@),
            Err(e) => hash_of(cell@) == Err::<Seq<u8>, ErrorView>(e@),
        },
{
    let bytes = match blob(cell) {
        Err(e) => {
            return Err(e);
        },
        Ok(bytes) => bytes,
    };
    match hash_from_blob(bytes) {
        Err(_) => Err(corrupt("invalid metadata hash")),
        Ok(hash) => Ok(hash),
    }
}

/// A number as a parameter of a query.
pub fn sqlite(n: u64) -> (r: Result<Cell, RuntimeError>)
    ensures
        match r {
            Ok(cell) => n <= i64::MAX && cell@ == CellView::Integer(n as i64),
            Err(e) => n > i64::MAX && e@ == ErrorView::Corrupt("metadata integer overflow"@),
        },
{
    if n <= i64::MAX as u64 {
        Ok(Cell::Integer(n as i64))
    } else {
        Err(corrupt("metadata integer overflow"))
    }
}

/// A count that may be missing.
pub open spec fn count_of(cell: CellView) -> Result<Option<u64>, ErrorView> {
    if cell is Null {
        Ok(None)
    } else {
        match natural_of(cell) {
            Ok(n) => Ok(Some(n)),
            Err(e) => Err(e),
        }
    }
}

pub fn opt(cell: &Cell) -> (r: Result<Option<u64>, RuntimeError>)
    ensures
        match r {
            Ok(n) => count_of(cell@) == Ok::<Option<u64>, ErrorView>(n),
            Err(e) => count_of(cell@) == Err::<Option<u64>, ErrorView>(e@),
        },
{
    if is_null(cell) {
        return Ok(None);
    }
    match uint(cell) {
        Ok(n) => Ok(Some(n)),
        Err(e) => Err(e),
    }
}

/// What a value of the wrong kind is answered where its column has a name.
pub open spec fn invalid_named(name: Seq<char>) -> ErrorView {
    ErrorView::Corrupt("invalid "@ + name)
}

pub fn required_i64(cell: &Cell, name: &str) -> (r: Result<i64, RuntimeError>)
    ensures
        match r {
            Ok(n) => cell@ == CellView::Integer(n),
            Err(e) => !(cell@ is Integer) && e@ == invalid_named(name@),
        },
{
    match cell {
        Cell::Integer(n) => Ok(*n),
        _ => Err(RuntimeError::Corrupt(joined("invalid ", name))),
    }
}

pub open spec fn small_of(cell: CellView) -> Option<u32> {
    match cell {
        CellView::Integer(n) => if 0 <= n <= u32::MAX {
            Some(n as u32)
        } else {
            None
        },
        _ => None,
    }
}

pub fn required_u32(cell: &Cell, name: &str) -> (r: Result<u32, RuntimeError>)
    ensures
        match r {
            Ok(n) => small_of(cell@) == Some(n),
            Err(e) => small_of(cell@) is None && e@ == invalid_named(name@),
        },
{
    match required_i64(cell, name) {
        Err(e) => Err(e),
        Ok(n) => if 0 <= n && n <= u32::MAX as i64 {
            Ok(n as u32)
        } else {
            Err(RuntimeError::Corrupt(joined("invalid ", name)))
        },
    }
}

pub fn optional_u32(cell: &Cell, name: &str) -> (r: Result<Option<u32>, RuntimeError>)
    ensures
        match r {
            Ok(None) => cell@ is Null,
            Ok(Some(n)) => small_of(cell@) == Some(n),
            Err(e) => !(cell@ is Null) && small_of(cell@) is None && e@ == invalid_named(name@),
        },
{
    if is_null(cell) {
        return Ok(None);
    }
    match required_u32(cell, name) {
        Ok(n) => Ok(Some(n)),
        Err(e) => Err(e),
    }
}

pub fn required_text(cell: &Cell, name: &str) -> (r: Result<String, RuntimeError>)
    ensures
        match r {
            Ok(text) => cell@ == CellView::Text(text@),
            Err(e) => !(cell@ is Text) && e@ == invalid_named(name@),
        },
{
    match cell {
        Cell::Text(text) => Ok(text.clone()),
        _ => Err(RuntimeError::Corrupt(joined("invalid ", name))),
    }
}

pub fn optional_text(cell: &Cell, name: &str) -> (r: Result<Option<String>, RuntimeError>)
    ensures
        match r {
            Ok(None) => cell@ is Null,
            Ok(Some(text)) => cell@ == CellView::Text(text@),
            Err(e) => !(cell@ is Null) && !(cell@ is Text) && e@ == invalid_named(name@),
        },
{
    if is_null(cell) {
        return Ok(None);
    }
    match required_text(cell, name) {
        Ok(text) => Ok(Some(text)),
        Err(e) => Err(e),
    }
}

/// A flag is stored as zero or one, and as nothing else.
pub fn required_bool(cell: &Cell) -> (r: Result<bool, RuntimeError>)
    ensures
        match r {
            Ok(flag) => cell@ == CellView::Integer(
                if flag {
                    1
                } else {
                    0
                },
            ),
            Err(e) => match cell@ {
                CellView::Integer(n) => n != 0 && n != 1 && e@ == ErrorView::Corrupt(
                    "required must be zero or one"@,
                ),
                _ => e@ == invalid_named("required"@),
            },
        },
{
    match required_i64(cell, "required") {
        Err(e) => Err(e),
        Ok(0) => Ok(false),
        Ok(1) => Ok(true),
        Ok(_) => Err(corrupt("required must be zero or one")),
    }
}

/// Whether ordinals count up from zero.
pub open spec fn counts_up(values: Seq<u32>) -> bool {
    forall|i: int| 0 <= i < values.len() ==> #[trigger] values[i] == i
}

/// Checks that ordinals count up from zero without gaps.
pub fn check_ordinals(values: &Vec<u32>, name: &str) -> (r: Result<(), RuntimeError>)
    ensures
        match r {
            Ok(()) => counts_up(values@),
            Err(e) => if counts_up(values@) {
                values@.len() > u32::MAX + 1 && e@ == ErrorView::Corrupt(
                    "too many "@ + name@ + " ordinals"@,
                )
            } else {
                ||| e@ == ErrorView::Corrupt("noncontiguous "@ + name@ + " ordinals"@)
                ||| values@.len() > u32::MAX + 1 && e@ == ErrorView::Corrupt(
                    "too many "@ + name@ + " ordinals"@,
                )
            },
        },
{
    let mut i: usize = 0;
    while i < values.len()
        invariant
            i <= values@.len(),
            forall|k: int| 0 <= k < i ==> #[trigger] values@[k] == k,
        decreases values@.len() - i,
    {
        if i as u64 > u32::MAX as u64 {
            let text = joined("too many ", name);
            return Err(RuntimeError::Corrupt(joined(text.as_str(), " ordinals")));
        }
        if values[i] != i as u32 {
            let text = joined("noncontiguous ", name);
            return Err(RuntimeError::Corrupt(joined(text.as_str(), " ordinals")));
        }
        i = i + 1;
    }
    Ok(())
}

} // verus!

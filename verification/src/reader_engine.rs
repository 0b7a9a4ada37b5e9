//! Admission of queries and of the rows they give back.
use crate::cells::{Cell, CellView};
use crate::error::{corrupt, exhausted, ErrorView, RuntimeError};
use crate::text::{append_decimal, byte_length, decimal, utf8_length};
use vstd::prelude::*;
use vstd::string::*;

verus! {

/// The size of a page.
pub const PAGE_SIZE: usize = 4096;

/// What the registration of one page may take.
pub const PAGE_ROLE_CHARGE: usize = 524288;

// ------------------------------------------------------------------ opening

/// The page cache in KiB.
pub fn cache_kib(page_cache_bytes: usize) -> (r: Result<i32, RuntimeError>)
    ensures
        match r {
            Ok(kib) => kib > 0 && kib * 1024 == page_cache_bytes,
            Err(e) => if page_cache_bytes == 0 {
                e@ == ErrorView::ResourceExhausted("Turso page cache budget must be non-zero"@)
            } else if page_cache_bytes as int % 1024 != 0 {
                e@ == ErrorView::ResourceExhausted(
                    "Turso page cache budget must be a whole number of KiB"@,
                )
            } else {
                &&& page_cache_bytes as int / 1024 > i32::MAX
                &&& e@ == ErrorView::ResourceExhausted("Turso page cache budget is too large"@)
            },
        },
{
    if page_cache_bytes == 0 {
        return Err(exhausted("Turso page cache budget must be non-zero"));
    }
    let kib: usize = page_cache_bytes / 1024;
    if page_cache_bytes % 1024 != 0 {
        return Err(exhausted("Turso page cache budget must be a whole number of KiB"));
    }
    if kib > 2147483647 {
        return Err(exhausted("Turso page cache budget is too large"));
    }
    Ok(kib as i32)
}

/// The statement that sets the page cache.
pub fn cache_pragma(kib: u32) -> (sql: String)
    ensures
        sql@ == "PRAGMA cache_size=-"@ + decimal(kib as nat),
{
    let mut sql = "PRAGMA cache_size=-".to_owned();
    append_decimal(&mut sql, kib as u64);
    sql
}

/// What opening the engine takes: room for eight records.
pub fn opening_charge(maximum_record: usize) -> (r: Result<usize, RuntimeError>)
    ensures
        match r {
            Ok(charge) => charge == maximum_record * 8,
            Err(e) => {
                &&& maximum_record * 8 > usize::MAX
                &&& e@ == ErrorView::ResourceExhausted("engine working budget overflow"@)
            },
        },
{
    if maximum_record > usize::MAX / 8 {
        return Err(exhausted("engine working budget overflow"));
    }
    Ok(maximum_record * 8)
}

/// What a query takes besides its rows: eight records, its bytes twice, and 64 KiB.
pub fn query_charge(maximum_record: usize, max_bytes: usize) -> (r: Result<usize, RuntimeError>)
    ensures
        match r {
            Ok(charge) => charge == maximum_record * 8 + max_bytes * 2 + 65536,
            Err(e) => {
                &&& maximum_record * 8 + max_bytes * 2 + 65536 > usize::MAX
                &&& e@ == ErrorView::ResourceExhausted("metadata query working budget overflow"@)
            },
        },
{
    let charge: u128 = maximum_record as u128 * 8 + max_bytes as u128 * 2 + 65536;
    if charge > usize::MAX as u128 {
        return Err(exhausted("metadata query working budget overflow"));
    }
    Ok(charge as usize)
}

// -------------------------------------------------------------------- pages

/// Checks a page request of the engine.
pub fn check_page_read(page: u64, output: usize) -> (r: Result<(), RuntimeError>)
    ensures
        match r {
            Ok(()) => page > 0 && 0 < output <= PAGE_SIZE,
            Err(e) => {
                &&& page == 0 || output == 0 || output > PAGE_SIZE
                &&& e@ == ErrorView::Corrupt("invalid SQLite page read requested by Turso"@)
            },
        },
{
    if output == 0 || output > PAGE_SIZE || page == 0 {
        return Err(corrupt("invalid SQLite page read requested by Turso"));
    }
    Ok(())
}

/// What the references that a page added keep of its charge. A page that adds
/// none keeps nothing.
pub fn kept_charge(added: usize) -> (charge: Option<usize>)
    requires
        added * 128 + 64 <= usize::MAX,
    ensures
        charge == (if added == 0 {
            None
        } else {
            Some((added * 128 + 64) as usize)
        }),
{
    if added == 0 {
        None
    } else {
        Some(added * 128 + 64)
    }
}

/// Keeps the first failure of a page source.
pub fn remember(failure: Option<RuntimeError>, error: RuntimeError) -> (kept: Option<RuntimeError>)
    ensures
        kept == (match failure {
            Some(first) => Some(first),
            None => Some(error),
        }),
{
    match failure {
        Some(first) => Some(first),
        None => Some(error),
    }
}

// ------------------------------------------------------------------ queries

/// The characters that separate words.
pub open spec fn is_space(c: char) -> bool {
    let n = c as u32;
    ||| 9 <= n <= 13
    ||| n == 32
    ||| n == 133
    ||| n == 160
    ||| n == 5760
    ||| 8192 <= n <= 8202
    ||| n == 8232
    ||| n == 8233
    ||| n == 8239
    ||| n == 8287
    ||| n == 12288
}

fn space(c: char) -> (yes: bool)
    ensures
        yes == is_space(c),
{
    let n: u32 = c as u32;
    (9 <= n && n <= 13) || n == 32 || n == 133 || n == 160 || n == 5760 || (8192 <= n && n <= 8202)
        || n == 8232 || n == 8233 || n == 8239 || n == 8287 || n == 12288
}

/// The text without leading spaces.
pub open spec fn unindented(text: Seq<char>) -> Seq<char>
    decreases text.len(),
{
    if text.len() == 0 || !is_space(text[0]) {
        text
    } else {
        unindented(text.skip(1))
    }
}

/// A character that reads as a capital letter, in either case.
pub open spec fn reads_as_letter(c: char, capital: char) -> bool {
    c == capital || ('a' <= c && c <= 'z' && c as u32 - 32 == capital as u32)
}

/// The text opens with a word, in either case.
pub open spec fn opens_with(text: Seq<char>, word: Seq<char>) -> bool {
    &&& text.len() >= word.len()
    &&& forall|i: int| 0 <= i < word.len() ==> #[trigger] reads_as_letter(text[i], word[i])
    &&& text.len() == word.len() || is_space(text[word.len() as int])
}

/// A statement that only reads: its first word says so.
pub open spec fn read_only(sql: Seq<char>) -> bool {
    let text = unindented(sql);
    ||| opens_with(text, "SELECT"@)
    ||| opens_with(text, "WITH"@)
    ||| opens_with(text, "EXPLAIN"@)
    ||| opens_with(text, "PRAGMA"@)
}

fn opens(text: &str, at: usize, word: &str) -> (yes: bool)
    requires
        at <= text@.len(),
    ensures
        yes == opens_with(text@.skip(at as int), word@),
{
    let size: usize = text.unicode_len();
    let count: usize = word.unicode_len();
    let ghost rest = text@.skip(at as int);
    if size - at < count {
        return false;
    }
    let mut i: usize = 0;
    while i < count
        invariant
            i <= count,
            count == word@.len(),
            size == text@.len(),
            at + count <= size,
            rest == text@.skip(at as int),
            forall|j: int| 0 <= j < i ==> #[trigger] reads_as_letter(rest[j], word@[j]),
        decreases count - i,
    {
        let c: char = text.get_char(at + i);
        let capital: char = word.get_char(i);
        assert(rest[i as int] == c);
        let lower: bool = 'a' <= c && c <= 'z';
        if !(c == capital || (lower && c as u32 - 32 == capital as u32)) {
            assert(!reads_as_letter(rest[i as int], word@[i as int]));
            return false;
        }
        i = i + 1;
    }
    if size - at == count {
        return true;
    }
    assert(rest[count as int] == text@[at + count]);
    space(text.get_char(at + count))
}

/// Whether a statement only reads.
pub fn is_read_only_sql(sql: &str) -> (yes: bool)
    ensures
        yes == read_only(sql@),
{
    let size: usize = sql.unicode_len();
    let mut at: usize = 0;
    assert(sql@.skip(0) =~= sql@);
    while at < size && space(sql.get_char(at))
        invariant
            at <= size,
            size == sql@.len(),
            unindented(sql@) == unindented(sql@.skip(at as int)),
        decreases size - at,
    {
        assert(sql@.skip(at as int)[0] == sql@[at as int]);
        assert(sql@.skip(at as int).skip(1) =~= sql@.skip(at + 1));
        at = at + 1;
    }
    proof {
        if at < size {
            assert(sql@.skip(at as int)[0] == sql@[at as int]);
        }
        assert(unindented(sql@) == sql@.skip(at as int));
    }
    opens(sql, at, "SELECT") || opens(sql, at, "WITH") || opens(sql, at, "EXPLAIN") || opens(
        sql,
        at,
        "PRAGMA",
    )
}

/// Checks a query before it runs.
pub fn check_query(sql: &str, max_rows: usize, max_bytes: usize) -> (r: Result<(), RuntimeError>)
    ensures
        match r {
            Ok(()) => max_rows > 0 && max_bytes > 0 && read_only(sql@),
            Err(e) => if max_rows == 0 || max_bytes == 0 {
                e@ == ErrorView::ResourceExhausted("query row and byte budgets must be non-zero"@)
            } else {
                &&& !read_only(sql@)
                &&& e@ == ErrorView::Turso(
                    "reader engine accepts only SELECT, WITH, EXPLAIN, and PRAGMA queries"@,
                )
            },
        },
{
    if max_rows == 0 || max_bytes == 0 {
        return Err(exhausted("query row and byte budgets must be non-zero"));
    }
    if !is_read_only_sql(sql) {
        return Err(
            RuntimeError::Turso(
                "reader engine accepts only SELECT, WITH, EXPLAIN, and PRAGMA queries".to_owned(),
            ),
        );
    }
    Ok(())
}

/// The bytes of a value.
pub open spec fn cell_bytes(cell: CellView) -> nat {
    match cell {
        CellView::Null => 0,
        CellView::Integer(_) | CellView::Real => 8,
        CellView::Text(text) => utf8_length(text),
        CellView::Blob(bytes) => bytes.len(),
    }
}

/// The bytes of a value.
pub fn value_bytes(cell: &Cell) -> (n: u128)
    ensures
        n == cell_bytes(cell@),
{
    match cell {
        Cell::Null => 0,
        Cell::Integer(_) => 8,
        Cell::Real => 8,
        Cell::Text(text) => byte_length(text.as_str()),
        Cell::Blob(bytes) => bytes.len() as u128,
    }
}

/// The bytes of a row: of its values, and a fixed amount for each of them.
pub open spec fn row_bytes(row: Seq<Cell>, overhead: nat) -> nat
    decreases row.len(),
{
    if row.len() == 0 {
        0
    } else {
        row_bytes(row.drop_last(), overhead) + cell_bytes(row.last()@) + overhead
    }
}

/// The rows that a query has given so far, within its budgets.
#[derive(Debug)]
pub struct RowBudget {
    pub max_rows: usize,
    pub max_bytes: usize,
    pub rows: usize,
    pub used: usize,
}

impl RowBudget {
    pub open spec fn wf(&self) -> bool {
        self.rows <= self.max_rows && self.used <= self.max_bytes
    }

    pub fn new(max_rows: usize, max_bytes: usize) -> (budget: Self)
        ensures
            budget.wf(),
            budget == (RowBudget { max_rows, max_bytes, rows: 0, used: 0 }),
    {
        RowBudget { max_rows, max_bytes, rows: 0, used: 0 }
    }

    /// Takes a row within the budgets. A row that goes over them ends the query.
    pub fn take(&mut self, row: &Vec<Cell>, overhead: usize) -> (r: Result<(), RuntimeError>)
        requires
            old(self).wf(),
        ensures
            final(self).wf(),
            ({
                let next = old(self).used + row_bytes(row@, overhead as nat);
                match r {
                    Ok(()) => {
                        &&& old(self).rows < old(self).max_rows
                        &&& next <= old(self).max_bytes
                        &&& *final(self) == (RowBudget {
                            rows: (old(self).rows + 1) as usize,
                            used: next as usize,
                            ..*old(self)
                        })
                    },
                    Err(e) => {
                        &&& *final(self) == *old(self)
                        &&& if old(self).rows == old(self).max_rows {
                            e@ == ErrorView::ResourceExhausted(
                                "metadata query row budget exhausted"@,
                            )
                        } else if next > usize::MAX {
                            e@ == ErrorView::ResourceExhausted(
                                "metadata query byte budget overflowed"@,
                            )
                        } else {
                            &&& next > old(self).max_bytes
                            &&& e@ == ErrorView::ResourceExhausted(
                                "metadata query byte budget exhausted"@,
                            )
                        }
                    },
                }
            }),
    {
        if self.rows == self.max_rows {
            return Err(exhausted("metadata query row budget exhausted"));
        }
        let used: usize = self.used;
        let mut next: u128 = used as u128;
        let mut i: usize = 0;
        while i < row.len()
            invariant
                i <= row@.len(),
                *self == *old(self),
                old(self).wf(),
                old(self).rows != old(self).max_rows,
                used == self.used,
                next == used + row_bytes(row@.take(i as int), overhead as nat),
                next <= usize::MAX,
            decreases row@.len() - i,
        {
            assert(row@.take(i + 1).drop_last() =~= row@.take(i as int));
            let size: u128 = value_bytes(&row[i]);
            if size > usize::MAX as u128 || next + size + overhead as u128 > usize::MAX as u128 {
                proof {
                    lemma_row_bytes(row@, overhead as nat, i + 1);
                }
                return Err(exhausted("metadata query byte budget overflowed"));
            }
            next = next + size + overhead as u128;
            i = i + 1;
        }
        assert(row@.take(i as int) =~= row@);
        if next > self.max_bytes as u128 {
            return Err(exhausted("metadata query byte budget exhausted"));
        }
        self.used = next as usize;
        self.rows = self.rows + 1;
        Ok(())
    }
}

/// A part of a row has no more bytes than the row.
proof fn lemma_row_bytes(row: Seq<Cell>, overhead: nat, k: int)
    requires
        0 <= k <= row.len(),
    ensures
        row_bytes(row.take(k), overhead) <= row_bytes(row, overhead),
    decreases row.len() - k,
{
    if k < row.len() {
        lemma_row_bytes(row, overhead, k + 1);
        assert(row.take(k + 1).drop_last() =~= row.take(k));
    } else {
        assert(row.take(k) =~= row);
    }
}

/// How a query ends: a failure of the page source comes before one of a budget,
/// that before one of the statement, and that before a late cancellation.
pub fn settle(
    source: Option<RuntimeError>,
    budget: Option<RuntimeError>,
    statement: Option<RuntimeError>,
    cancelled: bool,
) -> (r: Result<(), RuntimeError>)
    ensures
        match r {
            Ok(()) => source is None && budget is None && statement is None && !cancelled,
            Err(e) => match (source, budget, statement) {
                (Some(first), _, _) => e == first,
                (None, Some(first), _) => e == first,
                (None, None, Some(first)) => e == first,
                (None, None, None) => cancelled && e@ == ErrorView::Cancelled,
            },
        },
{
    if let Some(e) = source {
        return Err(e);
    }
    if let Some(e) = budget {
        return Err(e);
    }
    if let Some(e) = statement {
        return Err(e);
    }
    if cancelled {
        return Err(RuntimeError::Cancelled);
    }
    Ok(())
}

// -------------------------------------------------------------- the writer

/// Checks the row limit of a writer's query.
pub fn check_row_limit(max_rows: usize) -> (r: Result<(), RuntimeError>)
    ensures
        match r {
            Ok(()) => max_rows > 0,
            Err(e) => max_rows == 0 && e@ == ErrorView::ResourceExhausted(
                "SQL row query budget must be positive"@,
            ),
        },
{
    if max_rows == 0 {
        return Err(exhausted("SQL row query budget must be positive"));
    }
    Ok(())
}

pub open spec fn has_real(cells: Seq<Cell>) -> bool {
    exists|i: int| 0 <= i < cells.len() && (#[trigger] cells[i])@ is Real
}

fn holds_real(cells: &Vec<Cell>) -> (found: bool)
    ensures
        found == has_real(cells@),
{
    let mut i: usize = 0;
    while i < cells.len()
        invariant
            i <= cells@.len(),
            forall|j: int| 0 <= j < i ==> !((#[trigger] cells@[j])@ is Real),
        decreases cells@.len() - i,
    {
        if let Cell::Real = &cells[i] {
            assert(cells@[i as int]@ is Real);
            return true;
        }
        i = i + 1;
    }
    false
}

/// Checks one more row of a writer's query. Metadata holds no fractional numbers.
pub fn check_writer_row(taken: usize, max_rows: usize, row: &Vec<Cell>) -> (r: Result<
    (),
    RuntimeError,
>)
    ensures
        match r {
            Ok(()) => taken != max_rows && !has_real(row@),
            Err(e) => if taken == max_rows {
                e@ == ErrorView::ResourceExhausted("SQL row query budget exhausted"@)
            } else {
                has_real(row@) && e@ == ErrorView::Turso("unexpected float in metadata query"@)
            },
        },
{
    if taken == max_rows {
        return Err(exhausted("SQL row query budget exhausted"));
    }
    if holds_real(row) {
        return Err(RuntimeError::Turso("unexpected float in metadata query".to_owned()));
    }
    Ok(())
}

/// Checks the parameters of a writer's statement.
pub fn check_parameters(parameters: &Vec<Cell>) -> (r: Result<(), RuntimeError>)
    ensures
        match r {
            Ok(()) => !has_real(parameters@),
            Err(e) => has_real(parameters@) && e@ == ErrorView::Turso(
                "floating SQL parameters are outside the metadata writer contract"@,
            ),
        },
{
    if holds_real(parameters) {
        return Err(
            RuntimeError::Turso(
                "floating SQL parameters are outside the metadata writer contract".to_owned(),
            ),
        );
    }
    Ok(())
}

} // verus!

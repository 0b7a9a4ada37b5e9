//! Queries: which are run, and which rows they may give.
use crate::cells::{Cell, CellView};
use crate::error::RuntimeError;
use crate::reader_engine::{
    check_parameters, check_query, check_writer_row, has_real, is_read_only_sql, is_space,
    opens_with, read_only, reads_as_letter, unindented, value_bytes,
};
use vstd::prelude::*;

verus! {

// ------------------------------------------------------------ statements

/// A character that stands between words: a control that moves the place, a space, or
/// one of the wider spaces and separators.
pub open spec fn parts_words(c: char) -> bool {
    ||| '\u{9}' <= c <= '\u{d}'
    ||| c == ' '
    ||| c == '\u{85}'
    ||| c == '\u{a0}'
    ||| c == '\u{1680}'
    ||| '\u{2000}' <= c <= '\u{200a}'
    ||| c == '\u{2028}'
    ||| c == '\u{2029}'
    ||| c == '\u{202f}'
    ||| c == '\u{205f}'
    ||| c == '\u{3000}'
}

/// The number of a character, that of the capital for a small letter.
pub open spec fn capital_number(c: char) -> int {
    if 'a' <= c <= 'z' {
        c as int - 'a' as int + 'A' as int
    } else {
        c as int
    }
}

/// Nothing but a word's letters stands at a place of the text, after spaces alone and
/// before a space or the end.
pub open spec fn first_word(text: Seq<char>, at: int, word: Seq<char>) -> bool {
    &&& 0 <= at
    &&& at + word.len() <= text.len()
    &&& forall|i: int| 0 <= i < at ==> parts_words(#[trigger] text[i])
    &&& forall|i: int|
        0 <= i < word.len() ==> capital_number(text[at + i]) == #[trigger] word[i] as int
    &&& at + word.len() == text.len() || parts_words(text[at + word.len()])
}

/// The first word of the text, in capitals or not, is the given one.
pub open spec fn says_first(text: Seq<char>, word: Seq<char>) -> bool {
    exists|at: int| #[trigger] first_word(text, at, word)
}

proof fn lemma_space(c: char)
    ensures
        is_space(c) <==> parts_words(c),
{
    assert(c as u32 == c as int);
}

proof fn lemma_indent(text: Seq<char>) -> (at: int)
    ensures
        0 <= at <= text.len(),
        unindented(text) == text.skip(at),
        forall|i: int| 0 <= i < at ==> parts_words(#[trigger] text[i]),
        at == text.len() || !parts_words(text[at]),
    decreases text.len(),
{
    if text.len() == 0 || !is_space(text[0]) {
        lemma_space(text[0]);
        assert(text.skip(0) =~= text);
        0
    } else {
        let rest = text.skip(1);
        let at = lemma_indent(rest);
        assert(rest.skip(at) =~= text.skip(at + 1));
        assert forall|i: int| 0 <= i < at + 1 implies parts_words(#[trigger] text[i]) by {
            if i > 0 {
                assert(parts_words(rest[i - 1]));
                assert(rest[i - 1] == text[i]);
            } else {
                lemma_space(text[0]);
            }
        }
        if at < rest.len() {
            assert(rest[at] == text[at + 1]);
        }
        at + 1
    }
}

proof fn lemma_first_word(text: Seq<char>, word: Seq<char>)
    requires
        word.len() > 0,
        forall|i: int| 0 <= i < word.len() ==> 'A' <= #[trigger] word[i] <= 'Z',
    ensures
        opens_with(unindented(text), word) <==> says_first(text, word),
{
    let at = lemma_indent(text);
    let rest = unindented(text);
    if opens_with(rest, word) {
        assert forall|i: int| 0 <= i < word.len() implies capital_number(text[at + i])
            == #[trigger] word[i] as int by {
            assert(reads_as_letter(rest[i], word[i]));
            assert(rest[i] == text[at + i]);
        }
        if rest.len() != word.len() {
            lemma_space(rest[word.len() as int]);
            assert(rest[word.len() as int] == text[at + word.len()]);
        }
        assert(first_word(text, at, word));
    }
    if says_first(text, word) {
        let k = choose|k: int| #[trigger] first_word(text, k, word);
        assert(word[0] >= 'A');
        assert(capital_number(text[k + 0]) == word[0] as int);
        assert(!parts_words(text[k]));
        if k < at {
            assert(parts_words(text[k]));
        }
        if at < k {
            assert(parts_words(text[at]));
        }
        assert(k == at);
        assert forall|i: int| 0 <= i < word.len() implies #[trigger] reads_as_letter(
            rest[i],
            word[i],
        ) by {
            assert(capital_number(text[k + i]) == word[i] as int);
            assert(rest[i] == text[at + i]);
        }
        if rest.len() != word.len() {
            lemma_space(rest[word.len() as int]);
            assert(rest[word.len() as int] == text[at + word.len()]);
        }
    }
}

/// The statement's first word is one of those that only read.
pub open spec fn asks_only(sql: Seq<char>) -> bool {
    ||| says_first(sql, "SELECT"@)
    ||| says_first(sql, "WITH"@)
    ||| says_first(sql, "EXPLAIN"@)
    ||| says_first(sql, "PRAGMA"@)
}

proof fn lemma_read_only(sql: Seq<char>)
    ensures
        read_only(sql) <==> asks_only(sql),
{
    reveal_strlit("SELECT");
    reveal_strlit("WITH");
    reveal_strlit("EXPLAIN");
    reveal_strlit("PRAGMA");
    lemma_first_word(sql, "SELECT"@);
    lemma_first_word(sql, "WITH"@);
    lemma_first_word(sql, "EXPLAIN"@);
    lemma_first_word(sql, "PRAGMA"@);
}

/// A query is run if and only if it may give a row and a byte, and its first word, in
/// capitals or not, is `SELECT`, `WITH`, `EXPLAIN` or `PRAGMA`.
pub proof fn lemma_queries_only_read(
    sql: &str,
    max_rows: usize,
    max_bytes: usize,
    reads: bool,
    r: Result<(), RuntimeError>,
)
    requires
        call_ensures(is_read_only_sql, (sql,), reads),
        call_ensures(check_query, (sql, max_rows, max_bytes), r),
    ensures
        reads <==> asks_only(sql@),
        r is Ok <==> max_rows >= 1 && max_bytes >= 1 && asks_only(sql@),
{
    lemma_read_only(sql@);
}

// ------------------------------------------------------------ rows

/// A row is taken if and only if one more may come and none of its cells is a
/// fraction, and parameters are bound under the same condition on their cells.
pub proof fn lemma_no_fraction_is_taken(
    taken: usize,
    max_rows: usize,
    cells: Vec<Cell>,
    row: Result<(), RuntimeError>,
    bound: Result<(), RuntimeError>,
)
    requires
        call_ensures(check_writer_row, (taken, max_rows, &cells), row),
        call_ensures(check_parameters, (&cells,), bound),
    ensures
        bound is Ok <==> forall|i: int|
            0 <= i < cells@.len() ==> (#[trigger] cells@[i])@ != CellView::Real,
        row is Ok <==> taken != max_rows && bound is Ok,
{
    assert(has_real(cells@) <==> exists|i: int|
        0 <= i < cells@.len() && (#[trigger] cells@[i])@ == CellView::Real);
}

/// A number counts eight bytes, nothing counts none, and bytes count themselves.
pub proof fn lemma_bytes_of_a_cell(cell: Cell, n: u128)
    requires
        call_ensures(value_bytes, (&cell,), n),
    ensures
        cell@ is Null ==> n == 0,
        cell@ is Integer || cell@ is Real ==> n == 8,
        cell@ matches CellView::Blob(bytes) ==> n == bytes.len(),
{
}

} // verus!

//! Texts, numbers and bytes: what their readers and writers make of them.
use crate::bytes::{be_value, is_below, read_be16, read_be32};
use crate::cells::{
    blob, hash, opt, required_u32, signed_cell, sqlite, text_cell, uint, Cell, CellView,
};
use crate::error::RuntimeError;
use crate::hash::{hex_digit, hex_text, Id, Sha256};
use crate::laws::carried_appends::{lemma_says, says};
use crate::laws::staged_appends::{lemma_decimal_writes, number_of, writes};
use crate::tables::{nonnegative, sqlite_i64};
use crate::text::{begins, begins_with, canonical_u64, decimal, has_no_control, lex_less, text_less};
use crate::value::{find_member, members_view, CanonicalValue, Member, ValueView};
use vstd::prelude::*;

verus! {

// ------------------------------------------------------------ texts

/// The texts are the same up to a place, and there the first ends, or has the smaller
/// character.
pub open spec fn parts_at(a: Seq<char>, b: Seq<char>, k: int) -> bool {
    &&& 0 <= k <= a.len()
    &&& k < b.len()
    &&& forall|i: int| 0 <= i < k ==> #[trigger] a[i] == b[i]
    &&& k == a.len() || a[k] < b[k]
}

proof fn lemma_less(a: Seq<char>, b: Seq<char>)
    ensures
        lex_less(a, b) <==> exists|k: int| #[trigger] parts_at(a, b, k),
    decreases a.len(),
{
    if a.len() == 0 || b.len() == 0 {
        if b.len() > 0 {
            assert(parts_at(a, b, 0));
        }
    } else if a[0] != b[0] {
        if a[0] < b[0] {
            assert(parts_at(a, b, 0));
        } else {
            assert forall|k: int| !#[trigger] parts_at(a, b, k) by {
                if parts_at(a, b, k) && k > 0 {
                    assert(a[0] == b[0]);
                }
            }
        }
    } else {
        let c = a.skip(1);
        let d = b.skip(1);
        lemma_less(c, d);
        if exists|k: int| #[trigger] parts_at(c, d, k) {
            let k = choose|k: int| #[trigger] parts_at(c, d, k);
            assert forall|i: int| 0 <= i < k + 1 implies #[trigger] a[i] == b[i] by {
                if i > 0 {
                    assert(c[i - 1] == d[i - 1]);
                }
            }
            assert(parts_at(a, b, k + 1));
        }
        if exists|k: int| #[trigger] parts_at(a, b, k) {
            let k = choose|k: int| #[trigger] parts_at(a, b, k);
            assert(k > 0);
            assert forall|i: int| 0 <= i < k - 1 implies #[trigger] c[i] == d[i] by {
                assert(a[i + 1] == b[i + 1]);
            }
            assert(parts_at(c, d, k - 1));
        }
    }
}

/// Texts are ordered by their first different character, and a text comes after its
/// beginnings.
pub proof fn lemma_order_of_texts(a: &str, b: &str, less: bool)
    requires
        call_ensures(text_less, (a, b), less),
    ensures
        less <==> exists|k: int| #[trigger] parts_at(a@, b@, k),
{
    lemma_less(a@, b@);
}

/// A text begins with another exactly if it has its characters in the same places; it
/// is free of control characters exactly if none of its own is one.
pub proof fn lemma_tests_of_texts(text: &str, prefix: &str, starts: bool, clean: bool)
    requires
        call_ensures(begins_with, (text, prefix), starts),
        call_ensures(has_no_control, (text,), clean),
    ensures
        starts <==> prefix@.len() <= text@.len() && forall|i: int|
            0 <= i < prefix@.len() ==> #[trigger] prefix@[i] == text@[i],
        clean <==> forall|i: int|
            0 <= i < text@.len() ==> {
                let c = #[trigger] text@[i] as u32;
                0x20 <= c < 0x7f || 0xa0 <= c
            },
{
    if starts {
        assert forall|i: int| 0 <= i < prefix@.len() implies #[trigger] prefix@[i] == text@[i] by {
            assert(text@.take(prefix@.len() as int)[i] == text@[i]);
        }
    }
    if prefix@.len() <= text@.len() && (forall|i: int|
        0 <= i < prefix@.len() ==> #[trigger] prefix@[i] == text@[i]) {
        assert(text@.take(prefix@.len() as int) =~= prefix@);
        assert(begins(text@, prefix@));
    }
    if clean {
        assert forall|i: int| 0 <= i < text@.len() implies {
            let c = #[trigger] text@[i] as u32;
            0x20 <= c < 0x7f || 0xa0 <= c
        } by {
            assert(!crate::text::control(text@[i]));
        }
    } else {
        let i = choose|i: int|
            0 <= i < text@.len() && crate::text::control(#[trigger] text@[i]);
        let c = text@[i] as u32;
        assert(!(0x20 <= c < 0x7f || 0xa0 <= c));
    }
}

/// Texts that stand for one number are one text.
proof fn lemma_one_text(a: Seq<char>, n: int)
    requires
        writes(a, n),
    ensures
        n >= 0,
        a == decimal(n as nat),
    decreases a.len(),
{
    let front = a.drop_last();
    let d = a.last() as int - '0' as int;
    assert('0' <= a[a.len() - 1] <= '9');
    if a.len() == 1 {
        assert(front =~= Seq::<char>::empty());
        assert(number_of(front) == 0);
        assert(n == d);
        assert(a =~= decimal(n as nat));
    } else {
        assert forall|i: int| 0 <= i < front.len() implies '0' <= #[trigger] front[i] <= '9' by {
            assert(front[i] == a[i]);
        }
        assert(front[0] == a[0]);
        lemma_one_text(front, number_of(front));
        let m = number_of(front);
        lemma_decimal_writes(m as nat);
        if m == 0 {
            assert(decimal(0)[0] == '0') by {
                assert(decimal(0) =~= seq![crate::text::digit_char(0)]);
            }
            assert(false);
        }
        assert(n == 10 * m + d);
        assert(n / 10 == m && n % 10 == d);
        assert(a =~= decimal((n / 10) as nat).push(crate::text::digit_char((n % 10) as nat)));
    }
}

/// A number is read from a text exactly if the text is how it is written.
pub proof fn lemma_number_is_read(text: &str, r: Option<u64>)
    requires
        call_ensures(canonical_u64, (text,), r),
    ensures
        r matches Some(n) ==> writes(text@, n as int),
        r is None ==> forall|n: u64| !#[trigger] writes(text@, n as int),
{
    if let Some(n) = r {
        lemma_decimal_writes(n as nat);
    } else {
        assert forall|n: u64| !#[trigger] writes(text@, n as int) by {
            if writes(text@, n as int) {
                lemma_one_text(text@, n as int);
                assert(text@ == decimal(n as nat));
            }
        }
    }
}

// ------------------------------------------------------------ hexadecimal

/// The value of a hexadecimal digit.
pub open spec fn digit_value(c: char) -> int {
    if '0' <= c <= '9' {
        c as int - '0' as int
    } else {
        c as int - 'a' as int + 10
    }
}

pub open spec fn is_hex(c: char) -> bool {
    '0' <= c <= '9' || 'a' <= c <= 'f'
}

/// Two digits for each byte.
pub open spec fn shows(text: Seq<char>, bytes: Seq<u8>) -> bool {
    &&& text.len() == 2 * bytes.len()
    &&& forall|i: int|
        0 <= i < bytes.len() ==> is_hex(text[2 * i]) && is_hex(text[2 * i + 1])
            && #[trigger] bytes[i] == 16 * digit_value(text[2 * i]) + digit_value(text[2 * i + 1])
}

proof fn lemma_shows(bytes: Seq<u8>)
    ensures
        shows(hex_text(bytes), bytes),
{
    let text = hex_text(bytes);
    assert forall|i: int| 0 <= i < bytes.len() implies is_hex(text[2 * i]) && is_hex(
        text[2 * i + 1],
    ) && #[trigger] bytes[i] == 16 * digit_value(text[2 * i]) + digit_value(text[2 * i + 1]) by {
        let b = bytes[i];
        assert((2 * i) / 2 == i && (2 * i) % 2 == 0);
        assert((2 * i + 1) / 2 == i && (2 * i + 1) % 2 == 1);
        assert(text[2 * i] == hex_digit(b / 16));
        assert(text[2 * i + 1] == hex_digit(b % 16));
        assert(b / 16 < 16 && b % 16 < 16 && b == 16 * (b / 16) + b % 16);
    }
}

/// A digest is shown by two hexadecimal digits for each byte.
pub proof fn lemma_digest_is_shown(digest: Sha256, text: String)
    requires
        call_ensures(Sha256::to_text, (&digest,), text),
    ensures
        shows(text@, digest@),
        text@.len() == 64,
{
    lemma_shows(digest@);
}

/// An identifier is shown by its bytes in five groups: four, two, two, two and six.
pub proof fn lemma_identifier_is_shown(id: Id, text: String)
    requires
        call_ensures(Id::to_text, (&id,), text),
    ensures
        text@.len() == 36,
        shows(text@.subrange(0, 8), id@.subrange(0, 4)),
        shows(text@.subrange(9, 13), id@.subrange(4, 6)),
        shows(text@.subrange(14, 18), id@.subrange(6, 8)),
        shows(text@.subrange(19, 23), id@.subrange(8, 10)),
        shows(text@.subrange(24, 36), id@.subrange(10, 16)),
        text@[8] == '-' && text@[13] == '-' && text@[18] == '-' && text@[23] == '-',
{
    reveal_strlit("-");
    let a = id@.subrange(0, 4);
    let b = id@.subrange(4, 6);
    let c = id@.subrange(6, 8);
    let d = id@.subrange(8, 10);
    let e = id@.subrange(10, 16);
    lemma_shows(a);
    lemma_shows(b);
    lemma_shows(c);
    lemma_shows(d);
    lemma_shows(e);
    assert(id@.len() == 16);
    assert(text@.subrange(0, 8) =~= hex_text(a));
    assert(text@.subrange(9, 13) =~= hex_text(b));
    assert(text@.subrange(14, 18) =~= hex_text(c));
    assert(text@.subrange(19, 23) =~= hex_text(d));
    assert(text@.subrange(24, 36) =~= hex_text(e));
}

// ------------------------------------------------------------ values

/// What is found under a key is what the members say under it.
pub proof fn lemma_member_is_found(
    members: Vec<Member>,
    key: &str,
    found: Option<&CanonicalValue>,
)
    requires
        call_ensures(find_member, (&members, key), found),
    ensures
        found matches Some(value) ==> says(members_view(members@), key@, value@),
        found is None ==> forall|value: ValueView| !#[trigger]
            says(members_view(members@), key@, value),
{
    if let Some(value) = found {
        lemma_says(members_view(members@), key@, value@);
    } else {
        assert forall|value: ValueView| !#[trigger] says(
            members_view(members@),
            key@,
            value,
        ) by {
            lemma_says(members_view(members@), key@, value);
        }
    }
}

/// The values of a row are read as what they are, and as nothing else.
pub proof fn lemma_cells_are_read(
    cell: Cell,
    number: Result<i64, RuntimeError>,
    natural: Result<u64, RuntimeError>,
    count: Result<Option<u64>, RuntimeError>,
    text: Result<&String, RuntimeError>,
    bytes: Result<&Vec<u8>, RuntimeError>,
    digest: Result<Sha256, RuntimeError>,
)
    requires
        call_ensures(signed_cell, (&cell,), number),
        call_ensures(uint, (&cell,), natural),
        call_ensures(opt, (&cell,), count),
        call_ensures(text_cell, (&cell,), text),
        call_ensures(blob, (&cell,), bytes),
        call_ensures(hash, (&cell,), digest),
    ensures
        number is Ok <==> cell is Integer,
        number matches Ok(n) ==> cell == Cell::Integer(n),
        natural is Ok <==> (cell matches Cell::Integer(n) && n >= 0),
        natural matches Ok(m) ==> (cell matches Cell::Integer(n) && n == m),
        count is Ok <==> cell is Null || natural is Ok,
        cell is Null ==> count == Ok::<Option<u64>, RuntimeError>(None),
        count matches Ok(Some(m)) ==> (cell matches Cell::Integer(n) && n == m),
        text is Ok <==> cell is Text,
        text matches Ok(t) ==> cell@ == CellView::Text(t@),
        bytes is Ok <==> cell is Blob,
        bytes matches Ok(b) ==> cell@ == CellView::Blob(b@),
        digest is Ok <==> (cell@ matches CellView::Blob(b) && b.len() == 32),
        digest matches Ok(h) ==> cell@ == CellView::Blob(h@),
{
}

/// A number is stored and read back as itself, and refused exactly if it does not fit
/// the other form.
pub proof fn lemma_numbers_are_stored(
    n: u64,
    name: &str,
    cell: Result<Cell, RuntimeError>,
    column: Result<i64, RuntimeError>,
    back: Result<u64, RuntimeError>,
)
    requires
        call_ensures(sqlite, (n,), cell),
        call_ensures(sqlite_i64, (n, name), column),
        column matches Ok(m) ==> call_ensures(nonnegative, (m, name), back),
    ensures
        cell is Ok <==> n <= 0x7fff_ffff_ffff_ffff,
        column is Ok <==> n <= 0x7fff_ffff_ffff_ffff,
        cell matches Ok(c) ==> c@ == CellView::Integer(n as i64),
        column matches Ok(m) ==> m == n && back == Ok::<u64, RuntimeError>(n),
{
}

/// A small number is read exactly from a number that four bytes can hold.
pub proof fn lemma_small_numbers_are_read(cell: Cell, name: &str, r: Result<u32, RuntimeError>)
    requires
        call_ensures(required_u32, (&cell, name), r),
    ensures
        r is Ok <==> (cell matches Cell::Integer(n) && 0 <= n <= 0xffff_ffff),
        r matches Ok(m) ==> (cell matches Cell::Integer(n) && n == m),
{
}

// ------------------------------------------------------------ bytes

/// The bytes are the same up to a place, and there the first are smaller.
pub open spec fn bytes_part_at(a: Seq<u8>, b: Seq<u8>, k: int) -> bool {
    &&& 0 <= k < a.len()
    &&& forall|i: int| 0 <= i < k ==> #[trigger] a[i] == b[i]
    &&& a[k] < b[k]
}

proof fn lemma_below(a: Seq<u8>, b: Seq<u8>)
    requires
        a.len() == b.len(),
    ensures
        be_value(a) < be_value(b) <==> exists|k: int| #[trigger] bytes_part_at(a, b, k),
        be_value(a) == be_value(b) <==> a == b,
    decreases a.len(),
{
    if a.len() == 0 {
        assert(a =~= b);
    } else {
        let n = a.len() - 1;
        let c = a.drop_last();
        let d = b.drop_last();
        lemma_below(c, d);
        lemma_below(d, c);
        if be_value(a) == be_value(b) {
            assert(be_value(c) == be_value(d) && a.last() == b.last());
            assert(a =~= c.push(a.last()));
            assert(b =~= d.push(b.last()));
        }
        if exists|k: int| #[trigger] bytes_part_at(c, d, k) {
            let k = choose|k: int| #[trigger] bytes_part_at(c, d, k);
            assert forall|i: int| 0 <= i < k implies #[trigger] a[i] == b[i] by {
                assert(c[i] == d[i]);
            }
            assert(bytes_part_at(a, b, k));
        } else if c == d && a.last() < b.last() {
            assert forall|i: int| 0 <= i < n implies #[trigger] a[i] == b[i] by {
                assert(c[i] == d[i]);
            }
            assert(bytes_part_at(a, b, n));
        }
        if exists|k: int| #[trigger] bytes_part_at(a, b, k) {
            let k = choose|k: int| #[trigger] bytes_part_at(a, b, k);
            if k < n {
                assert forall|i: int| 0 <= i < k implies #[trigger] c[i] == d[i] by {
                    assert(a[i] == b[i]);
                }
                assert(bytes_part_at(c, d, k));
            } else {
                assert(c =~= d) by {
                    assert forall|i: int| 0 <= i < n implies c[i] == d[i] by {
                        assert(a[i] == b[i]);
                    }
                }
            }
        }
    }
}

/// Bytes of one length are ordered by their first different byte.
pub proof fn lemma_order_of_bytes(a: &[u8], b: &[u8], below: bool)
    requires
        a@.len() == b@.len(),
        call_ensures(is_below, (a, b), below),
    ensures
        below <==> exists|k: int| #[trigger] bytes_part_at(a@, b@, k),
{
    lemma_below(a@, b@);
}

/// Numbers in bytes have their most significant byte first.
pub proof fn lemma_numbers_in_bytes(b: &[u8], at: usize, short: usize, long: u64)
    requires
        at + 4 <= b@.len(),
        call_ensures(read_be16, (b, at), short),
        call_ensures(read_be32, (b, at), long),
    ensures
        short == 0x100 * b@[at as int] + b@[at + 1],
        long == 0x1_0000 * short + 0x100 * b@[at + 2] + b@[at + 3],
{
}

} // verus!

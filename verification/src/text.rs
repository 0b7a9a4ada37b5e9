//! Building strings with contracts on their characters.
use vstd::prelude::*;
use vstd::string::*;

verus! {

/// The single character that writes the digit `d`.
pub open spec fn digit_char(d: nat) -> char
    recommends
        d < 10,
{
    (('0' as u32) + d) as char
}

/// The decimal digits of `n`, most significant first, without leading zeros.
pub open spec fn decimal(n: nat) -> Seq<char>
    decreases n,
{
    if n < 10 {
        seq![digit_char(n)]
    } else {
        decimal(n / 10).push(digit_char(n % 10))
    }
}

/// Different numbers are written differently.
pub proof fn lemma_decimal_injective(m: nat, n: nat)
    requires
        decimal(m) == decimal(n),
    ensures
        m == n,
    decreases m,
{
    lemma_decimal_nonempty(m / 10);
    lemma_decimal_nonempty(n / 10);
    if m < 10 || n < 10 {
        if m >= 10 {
            assert(decimal(m).len() == decimal(m / 10).len() + 1);
            assert(decimal(n).len() == 1);
        }
        if n >= 10 {
            assert(decimal(n).len() == decimal(n / 10).len() + 1);
            assert(decimal(m).len() == 1);
        }
        assert(m < 10 && n < 10);
        assert(decimal(m)[0] == decimal(n)[0]);
        assert(decimal(m)[0] == digit_char(m));
        assert(decimal(n)[0] == digit_char(n));
        lemma_digit_injective(m, n);
    } else {
        lemma_digit_injective(m % 10, n % 10);
        assert(decimal(m).last() == digit_char(m % 10));
        assert(decimal(n).last() == digit_char(n % 10));
        assert(decimal(m).drop_last() =~= decimal(m / 10));
        assert(decimal(n).drop_last() =~= decimal(n / 10));
        lemma_decimal_injective(m / 10, n / 10);
    }
}

proof fn lemma_digit_injective(a: nat, b: nat)
    requires
        a < 10,
        b < 10,
    ensures
        digit_char(a) == digit_char(b) ==> a == b,
{
    assert(digit_char(a) as u32 == 48 + a);
    assert(digit_char(b) as u32 == 48 + b);
}

proof fn lemma_decimal_nonempty(n: nat)
    ensures
        decimal(n).len() > 0,
    decreases n,
{
    if n >= 10 {
        lemma_decimal_nonempty(n / 10);
    }
}

fn digit_text(d: u64) -> (s: &'static str)
    requires
        d < 10,
    ensures
        s@ =~= seq![digit_char(d as nat)],
{
    proof {
        reveal_strlit("0");
        reveal_strlit("1");
        reveal_strlit("2");
        reveal_strlit("3");
        reveal_strlit("4");
        reveal_strlit("5");
        reveal_strlit("6");
        reveal_strlit("7");
        reveal_strlit("8");
        reveal_strlit("9");
    }
    match d {
        0 => "0",
        1 => "1",
        2 => "2",
        3 => "3",
        4 => "4",
        5 => "5",
        6 => "6",
        7 => "7",
        8 => "8",
        _ => "9",
    }
}

/// Appends the decimal digits of `n`.
pub fn append_decimal(out: &mut String, n: u64)
    ensures
        final(out)@ == old(out)@ + decimal(n as nat),
    decreases n,
{
    if n < 10 {
        out.append(digit_text(n));
        assert(out@ =~= old(out)@ + decimal(n as nat));
    } else {
        append_decimal(out, n / 10);
        out.append(digit_text(n % 10));
        assert(out@ =~= old(out)@ + decimal(n as nat));
    }
}

/// A number with its sign, if it is negative.
pub open spec fn signed(n: int) -> Seq<char> {
    if n < 0 {
        "-"@ + decimal((-n) as nat)
    } else {
        decimal(n as nat)
    }
}

pub fn append_signed(out: &mut String, n: i64)
    ensures
        final(out)@ == old(out)@ + signed(n as int),
{
    if n < 0 {
        out.append("-");
        let size: u64 = (-(n + 1)) as u64 + 1;
        append_decimal(out, size);
        assert(out@ =~= old(out)@ + signed(n as int));
    } else {
        append_decimal(out, n as u64);
    }
}

/// The two strings one after the other.
pub fn joined(first: &str, second: &str) -> (out: String)
    ensures
        out@ == first@ + second@,
{
    let mut out = first.to_owned();
    out.append(second);
    out
}

/// Whether a text is the given literal.
pub fn reads(text: &String, literal: &str) -> (same: bool)
    ensures
        same == (text@ == literal@),
{
    *text == literal.to_owned()
}

pub open spec fn begins(text: Seq<char>, prefix: Seq<char>) -> bool {
    text.len() >= prefix.len() && text.take(prefix.len() as int) == prefix
}

/// Whether a text begins with the given prefix.
pub fn begins_with(text: &str, prefix: &str) -> (begins_so: bool)
    ensures
        begins_so == begins(text@, prefix@),
{
    let n: usize = prefix.unicode_len();
    if text.unicode_len() < n {
        return false;
    }
    let mut i: usize = 0;
    while i < n
        invariant
            i <= n,
            n == prefix@.len(),
            n <= text@.len(),
            forall|k: int| 0 <= k < i ==> text@[k] == prefix@[k],
        decreases n - i,
    {
        if text.get_char(i) != prefix.get_char(i) {
            assert(text@.take(n as int)[i as int] != prefix@[i as int]);
            return false;
        }
        i = i + 1;
    }
    assert(text@.take(n as int) =~= prefix@);
    true
}

/// The control characters of Unicode.
pub open spec fn control(c: char) -> bool {
    (c as u32) < 0x20 || 0x7f <= (c as u32) < 0xa0
}

pub open spec fn without_control(text: Seq<char>) -> bool {
    forall|i: int| 0 <= i < text.len() ==> !control(#[trigger] text[i])
}

pub fn has_no_control(text: &str) -> (none: bool)
    ensures
        none == without_control(text@),
{
    let n: usize = text.unicode_len();
    let mut i: usize = 0;
    while i < n
        invariant
            i <= n,
            n == text@.len(),
            forall|k: int| 0 <= k < i ==> !control(#[trigger] text@[k]),
        decreases n - i,
    {
        let c: u32 = text.get_char(i) as u32;
        if c < 0x20 || (0x7f <= c && c < 0xa0) {
            assert(control(text@[i as int]));
            return false;
        }
        i = i + 1;
    }
    true
}

/// The order of texts by their characters.
pub open spec fn lex_less(a: Seq<char>, b: Seq<char>) -> bool
    decreases a.len(),
{
    if b.len() == 0 {
        false
    } else if a.len() == 0 {
        true
    } else if a[0] != b[0] {
        a[0] < b[0]
    } else {
        lex_less(a.skip(1), b.skip(1))
    }
}

pub fn text_less(a: &str, b: &str) -> (less: bool)
    ensures
        less == lex_less(a@, b@),
{
    let n: usize = a.unicode_len();
    let m: usize = b.unicode_len();
    let mut i: usize = 0;
    proof {
        assert(a@.skip(0) =~= a@);
        assert(b@.skip(0) =~= b@);
    }
    while i < n && i < m
        invariant
            i <= n,
            i <= m,
            n == a@.len(),
            m == b@.len(),
            lex_less(a@, b@) == lex_less(a@.skip(i as int), b@.skip(i as int)),
        decreases n - i,
    {
        let x: char = a.get_char(i);
        let y: char = b.get_char(i);
        if x != y {
            return x < y;
        }
        proof {
            assert(a@.skip(i as int).skip(1) =~= a@.skip(i + 1));
            assert(b@.skip(i as int).skip(1) =~= b@.skip(i + 1));
        }
        i = i + 1;
    }
    i < m
}

pub proof fn lemma_lex_transitive(a: Seq<char>, b: Seq<char>, c: Seq<char>)
    requires
        lex_less(a, b),
        lex_less(b, c),
    ensures
        lex_less(a, c),
    decreases a.len(),
{
    if a.len() > 0 && a[0] == b[0] && b[0] == c[0] {
        lemma_lex_transitive(a.skip(1), b.skip(1), c.skip(1));
    }
}

/// Of two texts, exactly one comes first, unless they are the same.
pub proof fn lemma_lex_total(a: Seq<char>, b: Seq<char>)
    ensures
        lex_less(a, b) || lex_less(b, a) || a == b,
        !(lex_less(a, b) && lex_less(b, a)),
        a == b ==> !lex_less(a, b),
    decreases a.len(),
{
    if a.len() > 0 && b.len() > 0 && a[0] == b[0] {
        lemma_lex_total(a.skip(1), b.skip(1));
        if a.skip(1) == b.skip(1) {
            assert(a =~= seq![a[0]] + a.skip(1));
            assert(b =~= seq![b[0]] + b.skip(1));
        }
    }
    if a.len() == 0 && b.len() == 0 {
        assert(a =~= b);
    }
}

pub open spec fn texts_view(texts: Seq<String>) -> Seq<Seq<char>> {
    Seq::new(texts.len(), |i: int| texts[i]@)
}

/// Texts in strictly ascending order.
pub open spec fn ascending(texts: Seq<Seq<char>>) -> bool {
    forall|i: int, j: int|
        #![trigger texts[i], texts[j]]
        0 <= i < j < texts.len() ==> lex_less(texts[i], texts[j])
}

/// Adds a text to an ascending list that does not hold it.
pub fn insert_text(texts: &mut Vec<String>, text: String)
    requires
        ascending(texts_view(old(texts)@)),
        !texts_view(old(texts)@).contains(text@),
    ensures
        ascending(texts_view(final(texts)@)),
        forall|x: Seq<char>| #[trigger]
            texts_view(final(texts)@).contains(x) <==> texts_view(old(texts)@).contains(x) || x
                == text@,
{
    let ghost before = texts_view(texts@);
    let ghost new = text@;
    let mut at: usize = 0;
    while at < texts.len() && text_less(texts[at].as_str(), text.as_str())
        invariant
            at <= texts@.len(),
            before == texts_view(texts@),
            texts@ == old(texts)@,
            new == text@,
            forall|k: int| 0 <= k < at ==> lex_less(#[trigger] before[k], new),
        decreases texts@.len() - at,
    {
        assert(before[at as int] == texts@[at as int]@);
        at = at + 1;
    }
    proof {
        if at < texts@.len() {
            assert(before[at as int] == texts@[at as int]@);
            assert(before.contains(before[at as int]));
            lemma_lex_total(before[at as int], new);
        }
    }
    texts.insert(at, text);
    let ghost after = texts_view(texts@);
    proof {
        assert(after =~= before.insert(at as int, new));
        assert forall|i: int, j: int|
            #![trigger after[i], after[j]]
            0 <= i < j < after.len() implies lex_less(after[i], after[j]) by {
            if j == at {
                assert(after[i] == before[i]);
            } else if i == at {
                assert(after[j] == before[j - 1]);
                if j - 1 > at {
                    lemma_lex_transitive(new, before[at as int], before[j - 1]);
                }
            } else {
                let x = if i < at {
                    i
                } else {
                    i - 1
                };
                let y = if j < at {
                    j
                } else {
                    j - 1
                };
                assert(after[i] == before[x]);
                assert(after[j] == before[y]);
            }
        }
        assert forall|x: Seq<char>| #[trigger] after.contains(x) <==> before.contains(x) || x
            == new by {
            if after.contains(x) && x != new {
                let k = choose|k: int| 0 <= k < after.len() && after[k] == x;
                if k < at {
                    assert(before[k] == x);
                } else {
                    assert(before[k - 1] == x);
                }
            }
            if before.contains(x) {
                let k = choose|k: int| 0 <= k < before.len() && before[k] == x;
                if k < at {
                    assert(after[k] == x);
                } else {
                    assert(after[k + 1] == x);
                }
            }
            if x == new {
                assert(after[at as int] == x);
            }
        }
    }
}

/// Whether a list of texts holds a text.
pub fn holds_text(texts: &Vec<String>, text: &String) -> (found: bool)
    ensures
        found == texts_view(texts@).contains(text@),
{
    let ghost all = texts_view(texts@);
    let mut i: usize = 0;
    while i < texts.len()
        invariant
            i <= texts@.len(),
            all == texts_view(texts@),
            forall|k: int| 0 <= k < i ==> #[trigger] all[k] != text@,
        decreases texts@.len() - i,
    {
        assert(all[i as int] == texts@[i as int]@);
        if texts[i] == *text {
            return true;
        }
        i = i + 1;
    }
    false
}

/// How many bytes a character takes.
pub open spec fn char_length(c: char) -> nat {
    if (c as u32) < 0x80 {
        1
    } else if (c as u32) < 0x800 {
        2
    } else if (c as u32) < 0x10000 {
        3
    } else {
        4
    }
}

/// How many bytes a text takes.
pub open spec fn utf8_length(text: Seq<char>) -> nat
    decreases text.len(),
{
    if text.len() == 0 {
        0
    } else {
        utf8_length(text.drop_last()) + char_length(text.last())
    }
}

pub fn byte_length(text: &str) -> (n: u128)
    ensures
        n == utf8_length(text@),
        n <= 4 * usize::MAX,
{
    let total: usize = text.unicode_len();
    let mut n: u128 = 0;
    let mut i: usize = 0;
    while i < total
        invariant
            i <= total,
            total == text@.len(),
            n == utf8_length(text@.take(i as int)),
            n <= 4 * i,
        decreases total - i,
    {
        assert(text@.take(i + 1).drop_last() =~= text@.take(i as int));
        let c: u32 = text.get_char(i) as u32;
        if c < 0x80 {
            n = n + 1;
        } else if c < 0x800 {
            n = n + 2;
        } else if c < 0x10000 {
            n = n + 3;
        } else {
            n = n + 4;
        }
        i = i + 1;
    }
    assert(text@.take(i as int) =~= text@);
    n
}

/// The number that a run of digits stands for.
pub open spec fn digits_value(text: Seq<char>) -> nat
    decreases text.len(),
{
    if text.len() == 0 {
        0
    } else {
        digits_value(text.drop_last()) * 10 + (text.last() as u32 - 48) as nat
    }
}

pub open spec fn is_digit(c: char) -> bool {
    48 <= c as u32 <= 57
}

/// Digits without a leading zero.
pub open spec fn canonical_digits(text: Seq<char>) -> bool {
    &&& text.len() > 0
    &&& forall|i: int| 0 <= i < text.len() ==> is_digit(#[trigger] text[i])
    &&& text.len() > 1 ==> text[0] != '0'
}

proof fn lemma_digit_read(c: char)
    requires
        is_digit(c),
    ensures
        0 <= c as u32 - 48 && c as u32 - 48 <= 9,
        digit_char((c as u32 - 48) as nat) == c,
{
}

proof fn lemma_digits_decimal(text: Seq<char>)
    requires
        canonical_digits(text),
    ensures
        decimal(digits_value(text)) == text,
        text.len() > 1 || text[0] != '0' ==> digits_value(text) > 0,
    decreases text.len(),
{
    reveal_with_fuel(digits_value, 2);
    let d = (text.last() as u32 - 48) as nat;
    assert(is_digit(text[text.len() - 1]));
    lemma_digit_read(text.last());
    if text.len() == 1 {
        assert(text.drop_last() =~= Seq::<char>::empty());
        assert(text =~= seq![digit_char(d)]);
    } else {
        let front = text.drop_last();
        assert(front[0] == text[0]);
        assert forall|i: int| 0 <= i < front.len() implies is_digit(#[trigger] front[i]) by {
            assert(front[i] == text[i]);
        }
        lemma_digits_decimal(front);
        let n = digits_value(front);
        assert((n * 10 + d) / 10 == n);
        assert((n * 10 + d) % 10 == d);
        assert(front.push(text.last()) =~= text);
    }
}

proof fn lemma_decimal_digits(n: nat)
    ensures
        canonical_digits(decimal(n)),
        digits_value(decimal(n)) == n,
        n > 0 ==> decimal(n)[0] != '0',
    decreases n,
{
    reveal_with_fuel(digits_value, 2);
    if n < 10 {
        assert(decimal(n).drop_last() =~= Seq::<char>::empty());
        assert(digit_char(n) as u32 == 48 + n);
    } else {
        lemma_decimal_digits(n / 10);
        lemma_decimal_nonempty(n / 10);
        let front = decimal(n / 10);
        assert(decimal(n).drop_last() =~= front);
        assert(decimal(n)[0] == front[0]);
        assert(digit_char(n % 10) as u32 == 48 + n % 10);
        assert forall|i: int| 0 <= i < decimal(n).len() implies is_digit(
            #[trigger] decimal(n)[i],
        ) by {
            if i < front.len() {
                assert(decimal(n)[i] == front[i]);
            }
        }
    }
}

/// The digits of a part of a number are no larger number.
proof fn lemma_digits_grow(text: Seq<char>, k: int)
    requires
        0 <= k <= text.len(),
    ensures
        digits_value(text.take(k)) <= digits_value(text),
    decreases text.len() - k,
{
    if k < text.len() {
        lemma_digits_grow(text, k + 1);
        assert(text.take(k + 1).drop_last() =~= text.take(k));
    } else {
        assert(text.take(k) =~= text);
    }
}

/// Reads a number back from its decimal digits. Only the digits that the number
/// is written with are accepted: no sign and no leading zero.
pub fn canonical_u64(text: &str) -> (n: Option<u64>)
    ensures
        match n {
            Some(n) => text@ == decimal(n as nat),
            None => forall|m: u64| text@ != #[trigger] decimal(m as nat),
        },
{
    let size: usize = text.unicode_len();
    proof {
        assert forall|m: u64| !canonical_digits(text@) implies text@ != #[trigger] decimal(
            m as nat,
        ) by {
            lemma_decimal_digits(m as nat);
        }
    }
    if size == 0 || (size > 1 && text.get_char(0) == '0') {
        return None;
    }
    let mut value: u64 = 0;
    let mut i: usize = 0;
    assert(text@.take(0) =~= Seq::<char>::empty());
    while i < size
        invariant
            i <= size,
            size == text@.len(),
            value == digits_value(text@.take(i as int)),
            forall|j: int| 0 <= j < i ==> is_digit(#[trigger] text@[j]),
            forall|m: u64| !canonical_digits(text@) ==> text@ != #[trigger] decimal(m as nat),
        decreases size - i,
    {
        let c: u32 = text.get_char(i) as u32;
        if c < 48 || c > 57 {
            assert(!is_digit(text@[i as int]));
            return None;
        }
        let d: u64 = (c - 48) as u64;
        proof {
            assert(text@.take(i + 1).drop_last() =~= text@.take(i as int));
            assert(text@.take(i + 1).last() == text@[i as int]);
            assert(digits_value(text@.take(i + 1)) == value * 10 + d);
        }
        if value > (u64::MAX - d) / 10 {
            proof {
                lemma_digits_grow(text@, i + 1);
                assert forall|m: u64| text@ != #[trigger] decimal(m as nat) by {
                    lemma_decimal_digits(m as nat);
                }
            }
            return None;
        }
        value = value * 10 + d;
        i = i + 1;
    }
    proof {
        assert(text@.take(i as int) =~= text@);
        assert(canonical_digits(text@));
        lemma_digits_decimal(text@);
    }
    Some(value)
}

/// A number that is written in decimal digits is read back.
pub proof fn lemma_decimal_read_back(text: Seq<char>, n: u64, read: u64)
    requires
        text == decimal(n as nat),
        text == decimal(read as nat),
    ensures
        read == n,
{
    lemma_decimal_injective(n as nat, read as nat);
}

} // verus!

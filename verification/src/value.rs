//! Canonical values: the JSON values that documents and properties hold.
use crate::text::{
    ascending, lemma_lex_total, lemma_lex_transitive, lex_less, reads, text_less,
};
use vstd::prelude::*;
use vstd::string::*;

verus! {

/// A canonical value. The members of an object stand in ascending order of
/// their keys, and each key once.
#[derive(Debug)]
pub enum CanonicalValue {
    Null,
    Bool(bool),
    Integer(i128),
    Text(String),
    Array(Vec<CanonicalValue>),
    Object(Vec<Member>),
}

#[derive(Debug)]
pub struct Member {
    pub key: String,
    pub value: CanonicalValue,
}

/// A canonical value with each text taken as its characters.
pub enum ValueView {
    Null,
    Bool(bool),
    Integer(i128),
    Text(Seq<char>),
    Array(Seq<ValueView>),
    Object(Seq<(Seq<char>, ValueView)>),
}

pub open spec fn value_view(value: &CanonicalValue) -> ValueView
    decreases value,
{
    match *value {
        CanonicalValue::Null => ValueView::Null,
        CanonicalValue::Bool(b) => ValueView::Bool(b),
        CanonicalValue::Integer(n) => ValueView::Integer(n),
        CanonicalValue::Text(text) => ValueView::Text(text@),
        CanonicalValue::Array(items) => ValueView::Array(values_view(items@)),
        CanonicalValue::Object(members) => ValueView::Object(members_view(members@)),
    }
}

pub open spec fn values_view(items: Seq<CanonicalValue>) -> Seq<ValueView>
    decreases items,
{
    if items.len() == 0 {
        Seq::empty()
    } else {
        values_view(items.drop_last()).push(value_view(&items.last()))
    }
}

pub open spec fn members_view(members: Seq<Member>) -> Seq<(Seq<char>, ValueView)>
    decreases members,
{
    if members.len() == 0 {
        Seq::empty()
    } else {
        members_view(members.drop_last()).push(
            (members.last().key@, value_view(&members.last().value)),
        )
    }
}

impl View for CanonicalValue {
    type V = ValueView;

    open spec fn view(&self) -> ValueView {
        value_view(self)
    }
}

pub proof fn lemma_values_view(items: Seq<CanonicalValue>)
    ensures
        values_view(items).len() == items.len(),
        forall|i: int|
            0 <= i < items.len() ==> #[trigger] values_view(items)[i] == value_view(&items[i]),
    decreases items,
{
    if items.len() > 0 {
        lemma_values_view(items.drop_last());
    }
}

pub proof fn lemma_members_view(members: Seq<Member>)
    ensures
        members_view(members).len() == members.len(),
        forall|i: int|
            0 <= i < members.len() ==> #[trigger] members_view(members)[i] == (
                members[i].key@,
                value_view(&members[i].value),
            ),
    decreases members,
{
    if members.len() > 0 {
        lemma_members_view(members.drop_last());
    }
}

/// Whether two values are the same value.
pub fn same_value(a: &CanonicalValue, b: &CanonicalValue) -> (same: bool)
    ensures
        same == (a@ == b@),
    decreases a,
{
    match (a, b) {
        (CanonicalValue::Null, CanonicalValue::Null) => true,
        (CanonicalValue::Bool(x), CanonicalValue::Bool(y)) => *x == *y,
        (CanonicalValue::Integer(x), CanonicalValue::Integer(y)) => *x == *y,
        (CanonicalValue::Text(x), CanonicalValue::Text(y)) => *x == *y,
        (CanonicalValue::Array(x), CanonicalValue::Array(y)) => {
            proof {
                lemma_values_view(x@);
                lemma_values_view(y@);
            }
            if x.len() != y.len() {
                return false;
            }
            let mut i: usize = 0;
            while i < x.len()
                invariant
                    i <= x@.len(),
                    x@.len() == y@.len(),
                    a@ == ValueView::Array(values_view(x@)),
                    b@ == ValueView::Array(values_view(y@)),
                    values_view(x@).len() == x@.len(),
                    values_view(y@).len() == y@.len(),
                    forall|k: int|
                        0 <= k < x@.len() ==> #[trigger] values_view(x@)[k] == value_view(&x@[k]),
                    forall|k: int|
                        0 <= k < y@.len() ==> #[trigger] values_view(y@)[k] == value_view(&y@[k]),
                    forall|k: int|
                        0 <= k < i ==> #[trigger] values_view(x@)[k] == values_view(y@)[k],
                    a == CanonicalValue::Array(*x),
                decreases x@.len() - i,
            {
                if !same_value(&x[i], &y[i]) {
                    assert(values_view(x@)[i as int] != values_view(y@)[i as int]);
                    return false;
                }
                assert(values_view(x@)[i as int] == values_view(y@)[i as int]);
                i = i + 1;
            }
            assert(values_view(x@) =~= values_view(y@));
            true
        },
        (CanonicalValue::Object(x), CanonicalValue::Object(y)) => {
            proof {
                lemma_members_view(x@);
                lemma_members_view(y@);
            }
            if x.len() != y.len() {
                return false;
            }
            let mut i: usize = 0;
            while i < x.len()
                invariant
                    i <= x@.len(),
                    x@.len() == y@.len(),
                    a@ == ValueView::Object(members_view(x@)),
                    b@ == ValueView::Object(members_view(y@)),
                    members_view(x@).len() == x@.len(),
                    members_view(y@).len() == y@.len(),
                    forall|k: int|
                        0 <= k < x@.len() ==> #[trigger] members_view(x@)[k] == (
                            x@[k].key@,
                            value_view(&x@[k].value),
                        ),
                    forall|k: int|
                        0 <= k < y@.len() ==> #[trigger] members_view(y@)[k] == (
                            y@[k].key@,
                            value_view(&y@[k].value),
                        ),
                    forall|k: int|
                        0 <= k < i ==> #[trigger] members_view(x@)[k] == members_view(y@)[k],
                    a == CanonicalValue::Object(*x),
                decreases x@.len() - i,
            {
                if x[i].key != y[i].key || !same_value(&x[i].value, &y[i].value) {
                    assert(members_view(x@)[i as int] != members_view(y@)[i as int]);
                    return false;
                }
                assert(members_view(x@)[i as int] == members_view(y@)[i as int]);
                i = i + 1;
            }
            assert(members_view(x@) =~= members_view(y@));
            true
        },
        _ => false,
    }
}

/// A copy of a value.
pub fn copy_value(value: &CanonicalValue) -> (copy: CanonicalValue)
    ensures
        copy@ == value@,
    decreases value,
{
    match value {
        CanonicalValue::Null => CanonicalValue::Null,
        CanonicalValue::Bool(b) => CanonicalValue::Bool(*b),
        CanonicalValue::Integer(n) => CanonicalValue::Integer(*n),
        CanonicalValue::Text(text) => CanonicalValue::Text(text.clone()),
        CanonicalValue::Array(items) => {
            let mut out: Vec<CanonicalValue> = Vec::new();
            let mut i: usize = 0;
            assert(items@.take(0) =~= Seq::<CanonicalValue>::empty());
            assert(out@ =~= Seq::<CanonicalValue>::empty());
            while i < items.len()
                invariant
                    i <= items@.len(),
                    values_view(out@) == values_view(items@.take(i as int)),
                    value == CanonicalValue::Array(*items),
                decreases items@.len() - i,
            {
                let ghost before = out@;
                assert(decreases_to!(*value => value->Array_0));
                assert(decreases_to!(items => items@));
                assert(decreases_to!(items@ => items@[i as int]));
                let item = copy_value(&items[i]);
                out.push(item);
                proof {
                    assert(out@.drop_last() =~= before);
                    assert(items@.take(i + 1).drop_last() =~= items@.take(i as int));
                }
                i = i + 1;
            }
            assert(items@.take(i as int) =~= items@);
            CanonicalValue::Array(out)
        },
        CanonicalValue::Object(members) => {
            let mut out: Vec<Member> = Vec::new();
            let mut i: usize = 0;
            assert(members@.take(0) =~= Seq::<Member>::empty());
            assert(out@ =~= Seq::<Member>::empty());
            while i < members.len()
                invariant
                    i <= members@.len(),
                    members_view(out@) == members_view(members@.take(i as int)),
                    value == CanonicalValue::Object(*members),
                decreases members@.len() - i,
            {
                let ghost before = out@;
                assert(decreases_to!(*value => value->Object_0));
                assert(decreases_to!(members => members@));
                assert(decreases_to!(members@ => members@[i as int]));
                let member = Member {
                    key: members[i].key.clone(),
                    value: copy_value(&members[i].value),
                };
                out.push(member);
                proof {
                    assert(out@.drop_last() =~= before);
                    assert(members@.take(i + 1).drop_last() =~= members@.take(i as int));
                }
                i = i + 1;
            }
            assert(members@.take(i as int) =~= members@);
            CanonicalValue::Object(out)
        },
    }
}

impl Clone for CanonicalValue {
    fn clone(&self) -> (copy: Self)
        ensures
            copy@ == self@,
    {
        copy_value(self)
    }
}

/// The value of a member, if the object has one by that key.
pub open spec fn member_of(members: Seq<(Seq<char>, ValueView)>, key: Seq<char>) -> Option<ValueView>
    decreases members.len(),
{
    if members.len() == 0 {
        None
    } else if members[0].0 == key {
        Some(members[0].1)
    } else {
        member_of(members.skip(1), key)
    }
}

/// The first member with the given key.
pub fn find_member<'a>(members: &'a Vec<Member>, key: &str) -> (found: Option<&'a CanonicalValue>)
    ensures
        match found {
            Some(value) => member_of(members_view(members@), key@) == Some(value@),
            None => member_of(members_view(members@), key@) is None,
        },
{
    let ghost all = members_view(members@);
    proof {
        lemma_members_view(members@);
        assert(all.skip(0) =~= all);
    }
    let mut i: usize = 0;
    while i < members.len()
        invariant
            i <= members@.len(),
            all == members_view(members@),
            all.len() == members@.len(),
            forall|k: int|
                0 <= k < members@.len() ==> #[trigger] all[k] == (
                    members@[k].key@,
                    value_view(&members@[k].value),
                ),
            member_of(all, key@) == member_of(all.skip(i as int), key@),
        decreases members@.len() - i,
    {
        assert(all.skip(i as int)[0] == all[i as int]);
        assert(all.skip(i as int).skip(1) =~= all.skip(i + 1));
        if reads(&members[i].key, key) {
            return Some(&members[i].value);
        }
        i = i + 1;
    }
    None
}

/// An object of one member, added behind the others.
pub fn with_member(members: Vec<Member>, key: &str, value: CanonicalValue) -> (out: Vec<Member>)
    ensures
        members_view(out@) == members_view(members@).push((key@, value@)),
{
    let mut out = members;
    let ghost before = out@;
    out.push(Member { key: key.to_owned(), value });
    assert(out@.drop_last() =~= before);
    out
}

pub fn text(value: &str) -> (v: CanonicalValue)
    ensures
        v@ == ValueView::Text(value@),
{
    CanonicalValue::Text(value.to_owned())
}

pub open spec fn keys_of(members: Seq<(Seq<char>, ValueView)>) -> Seq<Seq<char>> {
    Seq::new(members.len(), |i: int| members[i].0)
}

proof fn lemma_member_at(members: Seq<(Seq<char>, ValueView)>, key: Seq<char>, at: int)
    requires
        0 <= at < members.len(),
        members[at].0 == key,
        forall|i: int| 0 <= i < at ==> (#[trigger] members[i]).0 != key,
    ensures
        member_of(members, key) == Some(members[at].1),
    decreases at,
{
    if at > 0 {
        assert(members[0].0 != key);
        assert(members.skip(1)[at - 1] == members[at]);
        assert forall|i: int| 0 <= i < at - 1 implies (#[trigger] members.skip(1)[i]).0 != key by {
            assert(members.skip(1)[i] == members[i + 1]);
        }
        lemma_member_at(members.skip(1), key, at - 1);
    }
}

proof fn lemma_no_member(members: Seq<(Seq<char>, ValueView)>, key: Seq<char>)
    requires
        forall|i: int| 0 <= i < members.len() ==> (#[trigger] members[i]).0 != key,
    ensures
        member_of(members, key) is None,
    decreases members.len(),
{
    if members.len() > 0 {
        assert(members[0].0 != key);
        assert forall|i: int| 0 <= i < members.len() - 1 implies (#[trigger] members.skip(1)[i]).0
            != key by {
            assert(members.skip(1)[i] == members[i + 1]);
        }
        lemma_no_member(members.skip(1), key);
    }
}

/// Members found in either of two lists that agree on a key.
proof fn lemma_same_member(
    a: Seq<(Seq<char>, ValueView)>,
    b: Seq<(Seq<char>, ValueView)>,
    key: Seq<char>,
    skipped: int,
)
    requires
        0 <= skipped < b.len(),
        a.len() + 1 == b.len(),
        b[skipped].0 != key,
        forall|i: int| 0 <= i < skipped ==> #[trigger] b[i] == a[i],
        forall|i: int| skipped <= i < a.len() ==> #[trigger] a[i] == b[i + 1],
    ensures
        member_of(a, key) == member_of(b, key),
    decreases b.len(),
{
    if skipped == 0 {
        assert(b.skip(1) =~= a);
    } else {
        assert(a[0] == b[0]);
        if a[0].0 != key {
            let x = a.skip(1);
            let y = b.skip(1);
            assert forall|i: int| 0 <= i < skipped - 1 implies #[trigger] y[i] == x[i] by {
                assert(b[i + 1] == a[i + 1]);
            }
            assert forall|i: int| skipped - 1 <= i < x.len() implies #[trigger] x[i] == y[i
                + 1] by {
                assert(a[i + 1] == b[i + 2]);
            }
            lemma_same_member(x, y, key, skipped - 1);
        }
    }
}

proof fn lemma_replaced_member(
    a: Seq<(Seq<char>, ValueView)>,
    b: Seq<(Seq<char>, ValueView)>,
    key: Seq<char>,
    at: int,
)
    requires
        0 <= at < a.len(),
        a.len() == b.len(),
        a[at].0 != key,
        b[at].0 != key,
        forall|i: int| 0 <= i < a.len() && i != at ==> #[trigger] a[i] == b[i],
    ensures
        member_of(a, key) == member_of(b, key),
    decreases a.len(),
{
    let x = a.skip(1);
    let y = b.skip(1);
    assert forall|i: int| 0 <= i < x.len() && i != at - 1 implies #[trigger] x[i] == y[i] by {
        assert(a[i + 1] == b[i + 1]);
    }
    if at == 0 {
        assert(x =~= y);
    } else {
        assert(a[0] == b[0]);
        if a[0].0 != key {
            lemma_replaced_member(x, y, key, at - 1);
        }
    }
}

/// Sets a member of an object, keeping the order of its keys.
pub fn put_member(members: &mut Vec<Member>, key: &str, value: CanonicalValue)
    requires
        ascending(keys_of(members_view(old(members)@))),
    ensures
        ascending(keys_of(members_view(final(members)@))),
        member_of(members_view(final(members)@), key@) == Some(value@),
        forall|other: Seq<char>|
            other != key@ ==> #[trigger] member_of(members_view(final(members)@), other)
                == member_of(members_view(old(members)@), other),
{
    let ghost start = members_view(members@);
    let ghost keys = keys_of(start);
    proof {
        lemma_members_view(members@);
    }
    let mut at: usize = 0;
    while at < members.len() && text_less(members[at].key.as_str(), key)
        invariant
            at <= members@.len(),
            members@ == old(members)@,
            start == members_view(members@),
            start.len() == members@.len(),
            keys == keys_of(start),
            forall|k: int|
                0 <= k < members@.len() ==> #[trigger] start[k] == (
                    members@[k].key@,
                    value_view(&members@[k].value),
                ),
            forall|k: int| 0 <= k < at ==> lex_less(#[trigger] keys[k], key@),
        decreases members@.len() - at,
    {
        assert(start[at as int].0 == members@[at as int].key@);
        at = at + 1;
    }
    let ghost shown = value@;
    if at < members.len() && reads(&members[at].key, key) {
        let name = members[at].key.clone();
        let ghost before = members@;
        members.set(at, Member { key: name, value });
        proof {
            lemma_members_view(members@);
            let after = members_view(members@);
            assert(start[at as int].0 == key@);
            assert forall|k: int| 0 <= k < after.len() && k != at implies #[trigger] start[k]
                == after[k] by {
                assert(members@[k] == before[k]);
            }
            assert(keys_of(after) =~= keys);
            assert forall|i: int| 0 <= i < at implies (#[trigger] after[i]).0 != key@ by {
                assert(keys[i] == after[i].0);
                lemma_lex_total(keys[i], key@);
            }
            lemma_member_at(after, key@, at as int);
            assert forall|other: Seq<char>| other != key@ implies #[trigger] member_of(
                after,
                other,
            ) == member_of(start, other) by {
                lemma_replaced_member(start, after, other, at as int);
            }
        }
        return;
    }
    let ghost before = members@;
    proof {
        if at < members@.len() {
            assert(start[at as int].0 == members@[at as int].key@);
            lemma_lex_total(keys[at as int], key@);
        }
    }
    members.insert(at, Member { key: key.to_owned(), value });
    proof {
        lemma_members_view(members@);
        let after = members_view(members@);
        let place = at as int;
        assert(after[place] == (key@, shown));
        assert forall|i: int| 0 <= i < place implies #[trigger] after[i] == start[i] by {
            assert(members@[i] == before[i]);
        }
        assert forall|i: int| place <= i < start.len() implies #[trigger] start[i] == after[i
            + 1] by {
            assert(members@[i + 1] == before[i]);
        }
        let sorted = keys_of(after);
        assert forall|i: int, j: int|
            #![trigger sorted[i], sorted[j]]
            0 <= i < j < sorted.len() implies lex_less(sorted[i], sorted[j]) by {
            let x = if i < place {
                i
            } else {
                i - 1
            };
            let y = if j < place {
                j
            } else {
                j - 1
            };
            if j == place {
                assert(sorted[i] == keys[i]);
            } else if i == place {
                assert(after[j] == start[j - 1]);
                assert(sorted[j] == keys[j - 1]);
                if j - 1 > place {
                    lemma_lex_transitive(key@, keys[place], keys[j - 1]);
                }
            } else {
                if i > place {
                    assert(start[x] == after[x + 1]);
                }
                if j > place {
                    assert(start[y] == after[y + 1]);
                }
                assert(sorted[i] == keys[x]);
                assert(sorted[j] == keys[y]);
            }
        }
        assert forall|i: int| 0 <= i < place implies (#[trigger] after[i]).0 != key@ by {
            assert(keys[i] == after[i].0);
            lemma_lex_total(keys[i], key@);
        }
        lemma_member_at(after, key@, place);
        assert forall|other: Seq<char>| other != key@ implies #[trigger] member_of(after, other)
            == member_of(start, other) by {
            lemma_same_member(start, after, other, place);
        }
    }
}

/// A copy of the members of an object.
pub fn copy_members(members: &Vec<Member>) -> (copy: Vec<Member>)
    ensures
        members_view(copy@) == members_view(members@),
{
    let mut out: Vec<Member> = Vec::new();
    let mut i: usize = 0;
    assert(members@.take(0) =~= Seq::<Member>::empty());
    assert(out@ =~= Seq::<Member>::empty());
    while i < members.len()
        invariant
            i <= members@.len(),
            members_view(out@) == members_view(members@.take(i as int)),
        decreases members@.len() - i,
    {
        let ghost before = out@;
        out.push(Member { key: members[i].key.clone(), value: copy_value(&members[i].value) });
        proof {
            assert(out@.drop_last() =~= before);
            assert(members@.take(i + 1).drop_last() =~= members@.take(i as int));
        }
        i = i + 1;
    }
    assert(members@.take(i as int) =~= members@);
    out
}

} // verus!

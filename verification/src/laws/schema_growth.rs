//! What a schema may add to the one before it, and what it must leave alone.
use crate::error::{ErrorView, RuntimeError};
use crate::laws::places::{field_at, lemma_place_below};
use crate::schema::{
    additions, additive_schema, all_field_ids, all_optional, changed_field, each_optional,
    field_ids, fields_view, kept_additions, schema_additions, FieldView, Schema,
};
use vstd::prelude::*;

verus! {

/// The field is as it was, but for the fields below it.
pub open spec fn unchanged(before: FieldView, after: FieldView) -> bool {
    &&& after.field_id == before.field_id
    &&& after.name == before.name
    &&& after.required == before.required
    &&& after.kind == before.kind
    &&& after.doc == before.doc
    &&& after.initial_default == before.initial_default
    &&& after.write_default == before.write_default
}

/// A field stands at the place that was not there before.
pub open spec fn is_new(before: Seq<FieldView>, after: Seq<FieldView>, place: Seq<int>) -> bool {
    field_at(before, place) is None && field_at(after, place) is Some
}

/// A new field has that identifier.
pub open spec fn adds(before: Seq<FieldView>, after: Seq<FieldView>, id: u32) -> bool {
    exists|place: Seq<int>| #[trigger]
        is_new(before, after, place) && field_at(after, place)->0.field_id == id
}

proof fn lemma_optional(fields: Seq<FieldView>, place: Seq<int>)
    requires
        each_optional(fields),
        field_at(fields, place) is Some,
    ensures
        !field_at(fields, place)->0.required,
    decreases fields,
{
    reveal_with_fuel(each_optional, 2);
    reveal_with_fuel(all_optional, 2);
    let n = fields.len() - 1;
    if place[0] == n {
        if place.len() > 1 {
            lemma_optional(fields.last().children, place.skip(1));
        }
    } else {
        assert(fields.drop_last()[place[0]] == fields[place[0]]);
        assert(field_at(fields.drop_last(), place) == field_at(fields, place));
        lemma_optional(fields.drop_last(), place);
    }
}

proof fn lemma_all_optional(fields: Seq<FieldView>)
    requires
        forall|place: Seq<int>|
            (#[trigger] field_at(fields, place)) matches Some(field) ==> !field.required,
    ensures
        each_optional(fields),
    decreases fields,
{
    reveal_with_fuel(each_optional, 2);
    reveal_with_fuel(all_optional, 2);
    if fields.len() > 0 {
        let n = fields.len() - 1;
        let front = fields.drop_last();
        assert forall|place: Seq<int>|
            (#[trigger] field_at(front, place)) matches Some(f) implies !field_at(
            front,
            place,
        )->0.required by {
            assert(front[place[0]] == fields[place[0]]);
            assert(field_at(fields, place) == field_at(front, place));
        }
        lemma_all_optional(front);
        assert(field_at(fields, seq![n]) == Some(fields.last()));
        let below = fields.last().children;
        assert forall|place: Seq<int>|
            (#[trigger] field_at(below, place)) matches Some(f) implies !field_at(
            below,
            place,
        )->0.required by {
            lemma_place_below(fields, n, place);
            assert(field_at(fields, seq![n] + place) == field_at(below, place));
        }
        lemma_all_optional(below);
    }
}

proof fn lemma_join(a: Seq<u32>, b: Seq<u32>, x: u32)
    ensures
        (a + b).contains(x) <==> a.contains(x) || b.contains(x),
{
    let all = a + b;
    if all.contains(x) {
        let k = choose|k: int| 0 <= k < all.len() && all[k] == x;
        if k < a.len() {
            assert(a[k] == x);
        } else {
            assert(b[k - a.len()] == x);
        }
    }
    if a.contains(x) {
        let k = choose|k: int| 0 <= k < a.len() && a[k] == x;
        assert(all[k] == x);
    }
    if b.contains(x) {
        let k = choose|k: int| 0 <= k < b.len() && b[k] == x;
        assert(all[a.len() + k] == x);
    }
}

/// The identifiers of fields are those of the fields at some place.
proof fn lemma_identifiers(fields: Seq<FieldView>, x: u32)
    ensures
        all_field_ids(fields).contains(x) <==> exists|place: Seq<int>|
            (#[trigger] field_at(fields, place)) matches Some(f) && f.field_id == x,
    decreases fields,
{
    reveal_with_fuel(all_field_ids, 2);
    reveal_with_fuel(field_ids, 2);
    if fields.len() == 0 {
    } else {
        let n = fields.len() - 1;
        let front = fields.drop_last();
        let last = fields.last();
        lemma_identifiers(front, x);
        lemma_identifiers(last.children, x);
        lemma_join(all_field_ids(front), field_ids(last), x);
        lemma_join(seq![last.field_id], all_field_ids(last.children), x);
        if all_field_ids(fields).contains(x) {
            if all_field_ids(front).contains(x) {
                let place = choose|place: Seq<int>|
                    (#[trigger] field_at(front, place)) matches Some(f) && f.field_id == x;
                assert(front[place[0]] == fields[place[0]]);
                assert(field_at(fields, place) == field_at(front, place));
            } else if seq![last.field_id].contains(x) {
                assert(field_at(fields, seq![n]) == Some(last));
            } else {
                let place = choose|place: Seq<int>|
                    (#[trigger] field_at(last.children, place)) matches Some(f) && f.field_id == x;
                lemma_place_below(fields, n, place);
                assert(field_at(fields, seq![n] + place) == field_at(last.children, place));
            }
        }
        if exists|place: Seq<int>|
            (#[trigger] field_at(fields, place)) matches Some(f) && f.field_id == x {
            let place = choose|place: Seq<int>|
                (#[trigger] field_at(fields, place)) matches Some(f) && f.field_id == x;
            if place[0] < n {
                assert(front[place[0]] == fields[place[0]]);
                assert(field_at(front, place) == field_at(fields, place));
            } else if place.len() == 1 {
                assert(seq![last.field_id][0] == x);
            } else {
                assert(field_at(last.children, place.skip(1)) == field_at(fields, place));
            }
        }
    }
}

proof fn lemma_kept_part(a: Seq<FieldView>, b: Seq<FieldView>, n: nat, i: int)
    requires
        n <= a.len(),
        n <= b.len(),
        kept_additions(a, b, n) is Ok,
        0 <= i < n,
    ensures
        changed_field(a[i], b[i]) is Ok,
        forall|x: u32| #[trigger]
            changed_field(a[i], b[i])->Ok_0.contains(x) ==> kept_additions(
                a,
                b,
                n,
            )->Ok_0.contains(x),
    decreases n,
{
    let before = kept_additions(a, b, (n - 1) as nat)->Ok_0;
    let more = changed_field(a[n - 1], b[n - 1])->Ok_0;
    if i < n - 1 {
        lemma_kept_part(a, b, (n - 1) as nat, i);
    }
    assert forall|x: u32| #[trigger]
        changed_field(a[i], b[i])->Ok_0.contains(x) implies kept_additions(
        a,
        b,
        n,
    )->Ok_0.contains(x) by {
        lemma_join(before, more, x);
    }
}

proof fn lemma_kept_source(a: Seq<FieldView>, b: Seq<FieldView>, n: nat, x: u32) -> (i: int)
    requires
        n <= a.len(),
        n <= b.len(),
        kept_additions(a, b, n) is Ok,
        kept_additions(a, b, n)->Ok_0.contains(x),
    ensures
        0 <= i < n,
        changed_field(a[i], b[i]) is Ok,
        changed_field(a[i], b[i])->Ok_0.contains(x),
    decreases n,
{
    let before = kept_additions(a, b, (n - 1) as nat)->Ok_0;
    let more = changed_field(a[n - 1], b[n - 1])->Ok_0;
    lemma_join(before, more, x);
    if more.contains(x) {
        n - 1
    } else {
        lemma_kept_source(a, b, (n - 1) as nat, x)
    }
}

/// The place one further on, among fields of which the first was left out.
spec fn further(place: Seq<int>) -> Seq<int> {
    place.update(0, place[0] + 1)
}

proof fn lemma_further(fields: Seq<FieldView>, place: Seq<int>)
    requires
        place.len() > 0,
        place[0] >= 0,
        fields.len() > 0,
    ensures
        field_at(fields, further(place)) == field_at(fields.skip(1), place),
{
    let there = further(place);
    assert(there.skip(1) =~= place.skip(1));
    if place[0] < fields.len() - 1 {
        assert(fields.skip(1)[place[0]] == fields[there[0]]);
    }
}

/// What one place shows of fields that were added to.
spec fn shows(a: Seq<FieldView>, b: Seq<FieldView>, place: Seq<int>) -> bool {
    match field_at(a, place) {
        Some(f) => {
            &&& field_at(b, place) matches Some(g)
            &&& unchanged(f, g)
            &&& f.kind is Primitive ==> g.children == f.children
            &&& f.kind is Mapping ==> g.children.len() == f.children.len()
            &&& f.kind is Mapping && f.children.len() == 2 ==> g.children[0] == f.children[0]
            &&& f.kind is Mapping && f.children.len() != 2 ==> g.children == f.children
            &&& g.children.len() >= f.children.len()
        },
        None => true,
    }
}

proof fn lemma_shown(a: Seq<FieldView>, b: Seq<FieldView>, place: Seq<int>)
    requires
        additions(a, b) is Ok,
    ensures
        shows(a, b, place),
        is_new(a, b, place) ==> !field_at(b, place)->0.required && additions(
            a,
            b,
        )->Ok_0.contains(field_at(b, place)->0.field_id),
    decreases place.len(),
{
    let ids = additions(a, b)->Ok_0;
    let kept = kept_additions(a, b, a.len())->Ok_0;
    let added = b.skip(a.len() as int);
    if place.len() > 0 && 0 <= place[0] < b.len() {
        let i = place[0];
        if i < a.len() {
            let f = a[i];
            let g = b[i];
            lemma_kept_part(a, b, a.len(), i);
            let below = place.skip(1);
            if place.len() == 1 {
                if f.kind is Mapping && g.children.len() == 2 && f.children.len() == 2 {
                    lemma_children(f.children.skip(1), g.children.skip(1));
                } else if f.kind is Struct || f.kind is List {
                    lemma_children(f.children, g.children);
                }
            } else if f.kind is Struct || f.kind is List {
                lemma_shown(f.children, g.children, below);
                if is_new(a, b, place) {
                    let id = field_at(b, place)->0.field_id;
                    assert(changed_field(f, g)->Ok_0.contains(id));
                    lemma_join(kept, all_field_ids(added), id);
                }
            } else if f.kind is Mapping && f.children.len() == 2 {
                if below[0] > 0 {
                    let shifted = below.update(0, below[0] - 1);
                    assert(further(shifted) =~= below);
                    lemma_further(f.children, shifted);
                    lemma_further(g.children, shifted);
                    lemma_shown(f.children.skip(1), g.children.skip(1), shifted);
                    if is_new(a, b, place) {
                        let id = field_at(b, place)->0.field_id;
                        assert(changed_field(f, g)->Ok_0.contains(id));
                        lemma_join(kept, all_field_ids(added), id);
                    }
                } else if below[0] == 0 {
                    assert(f.children[0] == g.children[0]);
                    assert(field_at(f.children, below) == field_at(g.children, below));
                }
            }
        } else {
            let there = place.update(0, i - a.len());
            assert(added[i - a.len()] == b[i]);
            assert(there.skip(1) =~= place.skip(1));
            assert(field_at(added, there) == field_at(b, place));
            if field_at(b, place) is Some {
                lemma_optional(added, there);
                let id = field_at(b, place)->0.field_id;
                lemma_identifiers(added, id);
                assert(field_at(added, there) matches Some(g) && g.field_id == id);
                lemma_join(kept, all_field_ids(added), id);
            }
        }
    }
}

proof fn lemma_children(a: Seq<FieldView>, b: Seq<FieldView>)
    requires
        additions(a, b) is Ok,
    ensures
        a.len() <= b.len(),
{
}

/// Every identifier that counts as added is one of a new field.
proof fn lemma_really_new(a: Seq<FieldView>, b: Seq<FieldView>, x: u32)
    requires
        additions(a, b) is Ok,
        additions(a, b)->Ok_0.contains(x),
    ensures
        adds(a, b, x),
    decreases a,
{
    let kept = kept_additions(a, b, a.len())->Ok_0;
    let added = b.skip(a.len() as int);
    lemma_join(kept, all_field_ids(added), x);
    if all_field_ids(added).contains(x) {
        lemma_identifiers(added, x);
        let there = choose|place: Seq<int>|
            (#[trigger] field_at(added, place)) matches Some(f) && f.field_id == x;
        let place = there.update(0, there[0] + a.len());
        assert(place.skip(1) =~= there.skip(1));
        assert(added[there[0]] == b[place[0]]);
        assert(field_at(b, place) == field_at(added, there));
        assert(is_new(a, b, place));
    } else {
        let i = lemma_kept_source(a, b, a.len(), x);
        let f = a[i];
        let g = b[i];
        if f.kind is Struct || f.kind is List {
            lemma_really_new(f.children, g.children, x);
            let below = choose|place: Seq<int>| #[trigger]
                is_new(f.children, g.children, place) && field_at(
                    g.children,
                    place,
                )->0.field_id == x;
            lemma_place_below(a, i, below);
            lemma_place_below(b, i, below);
            assert(is_new(a, b, seq![i] + below));
        } else if f.kind is Mapping && f.children.len() == 2 && g.children.len() == 2
            && f.children[0] == g.children[0] {
            lemma_really_new(f.children.skip(1), g.children.skip(1), x);
            let below = choose|place: Seq<int>| #[trigger]
                is_new(f.children.skip(1), g.children.skip(1), place) && field_at(
                    g.children.skip(1),
                    place,
                )->0.field_id == x;
            lemma_further(f.children, below);
            lemma_further(g.children, below);
            lemma_place_below(a, i, further(below));
            lemma_place_below(b, i, further(below));
            assert(is_new(a, b, seq![i] + further(below)));
        }
    }
}

/// A schema that is accepted as an addition names the one before it as its parent
/// and keeps its identifiers. Every field of the one before, at every depth, is
/// there at its place with its identifier, name, requiredness, type, description
/// and defaults. Every field that is new is optional. The identifiers that are
/// given are those of the new fields, each once, in increasing order.
pub proof fn lemma_addition_keeps_what_was_there(
    before: Schema,
    after: Schema,
    r: Result<Vec<u32>, RuntimeError>,
)
    requires
        call_ensures(additive_schema, (&before, &after), r),
    ensures
        r matches Ok(ids) ==> {
            let a = fields_view(before.fields@);
            let b = fields_view(after.fields@);
            &&& after.parent_schema_id == Some(before.schema_id)
            &&& after.identifier_field_ids@ == before.identifier_field_ids@
            &&& forall|place: Seq<int>|
                (#[trigger] field_at(a, place)) matches Some(f) ==> field_at(b, place) matches Some(
                    g,
                ) && unchanged(f, g)
            &&& forall|place: Seq<int>| #[trigger]
                is_new(a, b, place) ==> !field_at(b, place)->0.required
            &&& forall|x: u32| #[trigger] ids@.contains(x) <==> adds(a, b, x)
            &&& forall|i: int, j: int|
                0 <= i < j < ids@.len() ==> #[trigger] ids@[i] < #[trigger] ids@[j]
        },
{
    if let Ok(ids) = r {
        let a = fields_view(before.fields@);
        let b = fields_view(after.fields@);
        assert(additions(a, b) is Ok);
        assert forall|place: Seq<int>|
            (#[trigger] field_at(a, place)) matches Some(f) implies field_at(b, place) matches Some(
            g,
        ) && unchanged(field_at(a, place)->0, g) by {
            lemma_shown(a, b, place);
        }
        assert forall|place: Seq<int>| #[trigger]
            is_new(a, b, place) implies !field_at(b, place)->0.required by {
            lemma_shown(a, b, place);
        }
        assert forall|x: u32| #[trigger] ids@.contains(x) <==> adds(a, b, x) by {
            if ids@.contains(x) {
                lemma_really_new(a, b, x);
            }
            if adds(a, b, x) {
                let place = choose|place: Seq<int>| #[trigger]
                    is_new(a, b, place) && field_at(b, place)->0.field_id == x;
                lemma_shown(a, b, place);
            }
        }
    }
}

/// What an accepted addition leaves alone: a primitive field has nothing below it
/// that was not there, and a mapping keeps its key and gets no third part.
pub proof fn lemma_addition_keeps_keys(
    before: Schema,
    after: Schema,
    r: Result<Vec<u32>, RuntimeError>,
    place: Seq<int>,
)
    requires
        call_ensures(additive_schema, (&before, &after), r),
        r is Ok,
        field_at(fields_view(before.fields@), place) is Some,
    ensures
        ({
            let f = field_at(fields_view(before.fields@), place)->0;
            let g = field_at(fields_view(after.fields@), place)->0;
            &&& f.kind is Primitive ==> g == f
            &&& f.kind is Mapping ==> g.children.len() == f.children.len()
            &&& f.kind is Mapping && f.children.len() == 2 ==> g.children[0] == f.children[0]
        }),
{
    lemma_shown(fields_view(before.fields@), fields_view(after.fields@), place);
}

// ------------------------------------------------------ what is accepted

proof fn lemma_same_field(f: FieldView)
    ensures
        changed_field(f, f) == Ok::<Seq<u32>, ErrorView>(Seq::empty()),
    decreases f, 1nat,
{
    if f.kind is Struct || f.kind is List {
        lemma_same_fields(f.children);
    } else if f.kind is Mapping && f.children.len() == 2 {
        lemma_same_fields(f.children.skip(1));
    }
}

proof fn lemma_same_fields(fields: Seq<FieldView>)
    ensures
        additions(fields, fields) == Ok::<Seq<u32>, ErrorView>(Seq::empty()),
    decreases fields, fields.len() + 1,
{
    lemma_same_kept(fields, fields, fields.len());
    let added = fields.skip(fields.len() as int);
    assert(added =~= Seq::<FieldView>::empty());
    assert(Seq::<u32>::empty() + all_field_ids(added) =~= Seq::<u32>::empty());
}

proof fn lemma_same_kept(a: Seq<FieldView>, b: Seq<FieldView>, n: nat)
    requires
        n <= a.len(),
        n <= b.len(),
        forall|i: int| 0 <= i < n ==> #[trigger] a[i] == b[i],
    ensures
        kept_additions(a, b, n) == Ok::<Seq<u32>, ErrorView>(Seq::empty()),
    decreases a, n,
{
    if n > 0 {
        lemma_same_kept(a, b, (n - 1) as nat);
        assert(a[n - 1] == b[n - 1]);
        lemma_same_field(a[n - 1]);
        assert(Seq::<u32>::empty() + Seq::<u32>::empty() =~= Seq::<u32>::empty());
    }
}

/// Optional fields, with nothing but optional fields below them, can be added
/// behind the fields of a schema, and the identifiers that are given are theirs.
pub proof fn lemma_optional_fields_can_be_added(
    before: Schema,
    after: Schema,
    r: Result<Vec<u32>, RuntimeError>,
    extra: Seq<FieldView>,
)
    requires
        call_ensures(additive_schema, (&before, &after), r),
        after.parent_schema_id == Some(before.schema_id),
        after.identifier_field_ids@ == before.identifier_field_ids@,
        fields_view(after.fields@) == fields_view(before.fields@) + extra,
        forall|place: Seq<int>|
            (#[trigger] field_at(extra, place)) matches Some(field) ==> !field.required,
    ensures
        r matches Ok(ids) && forall|x: u32| #[trigger]
            ids@.contains(x) <==> exists|place: Seq<int>|
                (#[trigger] field_at(extra, place)) matches Some(field) && field.field_id == x,
{
    let a = fields_view(before.fields@);
    let b = fields_view(after.fields@);
    lemma_same_kept(a, b, a.len());
    assert(b.skip(a.len() as int) =~= extra);
    lemma_all_optional(extra);
    assert(Seq::<u32>::empty() + all_field_ids(extra) =~= all_field_ids(extra));
    assert(schema_additions(before@, after@) == Ok::<Seq<u32>, ErrorView>(
        all_field_ids(extra),
    ));
    if let Ok(ids) = r {
        assert forall|x: u32| #[trigger] ids@.contains(x) <==> exists|place: Seq<int>|
            (#[trigger] field_at(extra, place)) matches Some(field) && field.field_id == x by {
            lemma_identifiers(extra, x);
        }
    }
}

proof fn lemma_one_changed(a: Seq<FieldView>, b: Seq<FieldView>, i: int, n: nat)
    requires
        a.len() == b.len(),
        0 <= i < a.len(),
        n <= a.len(),
        forall|k: int| 0 <= k < a.len() && k != i ==> #[trigger] a[k] == b[k],
    ensures
        kept_additions(a, b, n) == (if n <= i {
            Ok::<Seq<u32>, ErrorView>(Seq::empty())
        } else {
            changed_field(a[i], b[i])
        }),
    decreases n,
{
    if n > 0 {
        lemma_one_changed(a, b, i, (n - 1) as nat);
        if n - 1 == i {
            if let Ok(ids) = changed_field(a[i], b[i]) {
                assert(Seq::<u32>::empty() + ids =~= ids);
            }
        } else {
            assert(a[n - 1] == b[n - 1]);
            lemma_same_field(a[n - 1]);
            if n - 1 > i {
                if let Ok(ids) = changed_field(a[i], b[i]) {
                    assert(ids + Seq::<u32>::empty() =~= ids);
                }
            } else {
                assert(Seq::<u32>::empty() + Seq::<u32>::empty() =~= Seq::<u32>::empty());
            }
        }
    }
}

/// What may be added below a field is what may be added to a schema of the fields
/// below it: below a struct or a list to all of them, below a mapping to its value,
/// while its key stays. So additions are accepted at every depth alike, and are
/// given the same identifiers.
pub proof fn lemma_additions_below_a_field(
    before: Schema,
    after: Schema,
    r: Result<Vec<u32>, RuntimeError>,
    inner_before: Schema,
    inner_after: Schema,
    inner: Result<Vec<u32>, RuntimeError>,
    i: int,
)
    requires
        call_ensures(additive_schema, (&before, &after), r),
        call_ensures(additive_schema, (&inner_before, &inner_after), inner),
        after.parent_schema_id == Some(before.schema_id),
        after.identifier_field_ids@ == before.identifier_field_ids@,
        inner_after.parent_schema_id == Some(inner_before.schema_id),
        inner_after.identifier_field_ids@ == inner_before.identifier_field_ids@,
        ({
            let a = fields_view(before.fields@);
            let b = fields_view(after.fields@);
            let x = fields_view(inner_before.fields@);
            let y = fields_view(inner_after.fields@);
            &&& a.len() == b.len()
            &&& 0 <= i < a.len()
            &&& forall|k: int| 0 <= k < a.len() && k != i ==> #[trigger] a[k] == b[k]
            &&& unchanged(a[i], b[i])
            &&& {
                ||| {
                    &&& a[i].kind is Struct || a[i].kind is List
                    &&& a[i].children == x
                    &&& b[i].children == y
                }
                ||| {
                    &&& a[i].kind is Mapping
                    &&& a[i].children.len() == 2
                    &&& b[i].children.len() == 2
                    &&& a[i].children[0] == b[i].children[0]
                    &&& x == seq![a[i].children[1]]
                    &&& y == seq![b[i].children[1]]
                }
            }
        }),
    ensures
        r is Ok <==> inner is Ok,
        r is Ok && inner is Ok ==> forall|x: u32| #[trigger]
            r->Ok_0@.contains(x) <==> inner->Ok_0@.contains(x),
{
    let a = fields_view(before.fields@);
    let b = fields_view(after.fields@);
    let x = fields_view(inner_before.fields@);
    let y = fields_view(inner_after.fields@);
    lemma_one_changed(a, b, i, a.len());
    let added = b.skip(a.len() as int);
    assert(added =~= Seq::<FieldView>::empty());
    if a[i].kind is Mapping {
        assert(a[i].children.skip(1) =~= x);
        assert(b[i].children.skip(1) =~= y);
    }
    assert(changed_field(a[i], b[i]) == additions(x, y));
    if let Ok(ids) = additions(x, y) {
        assert(ids + all_field_ids(added) =~= ids);
    }
}

} // verus!

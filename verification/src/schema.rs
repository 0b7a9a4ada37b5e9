//! Table schemas: fields, their types, and additive evolution.
use crate::error::{ErrorView, RuntimeError};
use vstd::prelude::*;

verus! {

/// A primitive type by its canonical text.
#[derive(Debug)]
pub struct PrimitiveType {
    pub text: String,
    /// Whether values of the type may be NaN.
    pub float: bool,
}

#[derive(Debug)]
pub enum TypeKind {
    Primitive(PrimitiveType),
    Struct,
    List,
    Mapping,
}

/// A type with its child fields: those of a struct, the element of a list, the
/// key and the value of a mapping.
#[derive(Debug)]
pub struct LogicalType {
    pub kind: TypeKind,
    pub children: Vec<Field>,
}

/// One field. Defaults are held in canonical text.
#[derive(Debug)]
pub struct Field {
    pub field_id: u32,
    pub name: String,
    pub required: bool,
    pub field_type: LogicalType,
    pub doc: Option<String>,
    pub initial_default: Option<String>,
    pub write_default: Option<String>,
}

#[derive(Debug)]
pub struct Schema {
    pub schema_id: u32,
    pub parent_schema_id: Option<u32>,
    pub doc: Option<String>,
    pub fields: Vec<Field>,
    pub identifier_field_ids: Vec<u32>,
}

pub enum KindView {
    Primitive(Seq<char>, bool),
    Struct,
    List,
    Mapping,
}

pub struct FieldView {
    pub field_id: u32,
    pub name: Seq<char>,
    pub required: bool,
    pub kind: KindView,
    pub children: Seq<FieldView>,
    pub doc: Option<Seq<char>>,
    pub initial_default: Option<Seq<char>>,
    pub write_default: Option<Seq<char>>,
}

pub struct SchemaView {
    pub schema_id: u32,
    pub parent_schema_id: Option<u32>,
    pub doc: Option<Seq<char>>,
    pub fields: Seq<FieldView>,
    pub identifier_field_ids: Seq<u32>,
}

pub open spec fn text_view(text: Option<String>) -> Option<Seq<char>> {
    match text {
        Some(text) => Some(text@),
        None => None,
    }
}

pub open spec fn kind_view(kind: TypeKind) -> KindView {
    match kind {
        TypeKind::Primitive(p) => KindView::Primitive(p.text@, p.float),
        TypeKind::Struct => KindView::Struct,
        TypeKind::List => KindView::List,
        TypeKind::Mapping => KindView::Mapping,
    }
}

pub open spec fn field_view(field: &Field) -> FieldView
    decreases field, 0nat,
{
    FieldView {
        field_id: field.field_id,
        name: field.name@,
        required: field.required,
        kind: kind_view(field.field_type.kind),
        children: fields_view(field.field_type.children@),
        doc: text_view(field.doc),
        initial_default: text_view(field.initial_default),
        write_default: text_view(field.write_default),
    }
}

pub open spec fn fields_view(fields: Seq<Field>) -> Seq<FieldView>
    decreases fields, 0nat,
{
    if fields.len() == 0 {
        Seq::empty()
    } else {
        fields_view(fields.drop_last()).push(field_view(&fields.last()))
    }
}

impl View for Field {
    type V = FieldView;

    open spec fn view(&self) -> FieldView {
        field_view(self)
    }
}

impl View for Schema {
    type V = SchemaView;

    open spec fn view(&self) -> SchemaView {
        SchemaView {
            schema_id: self.schema_id,
            parent_schema_id: self.parent_schema_id,
            doc: text_view(self.doc),
            fields: fields_view(self.fields@),
            identifier_field_ids: self.identifier_field_ids@,
        }
    }
}

pub proof fn lemma_fields_view(fields: Seq<Field>)
    ensures
        fields_view(fields).len() == fields.len(),
        forall|i: int|
            0 <= i < fields.len() ==> #[trigger] fields_view(fields)[i] == field_view(&fields[i]),
    decreases fields,
{
    if fields.len() > 0 {
        lemma_fields_view(fields.drop_last());
    }
}

pub fn same_text(a: &Option<String>, b: &Option<String>) -> (same: bool)
    ensures
        same == (text_view(*a) == text_view(*b)),
{
    match (a, b) {
        (Some(a), Some(b)) => *a == *b,
        (None, None) => true,
        _ => false,
    }
}

pub fn same_kind(a: &TypeKind, b: &TypeKind) -> (same: bool)
    ensures
        same == (kind_view(*a) == kind_view(*b)),
{
    match (a, b) {
        (TypeKind::Primitive(a), TypeKind::Primitive(b)) => a.text == b.text && a.float == b.float,
        (TypeKind::Struct, TypeKind::Struct) => true,
        (TypeKind::List, TypeKind::List) => true,
        (TypeKind::Mapping, TypeKind::Mapping) => true,
        _ => false,
    }
}

/// Fields that agree in all but their types.
pub open spec fn same_but_type(a: FieldView, b: FieldView) -> bool {
    &&& a.field_id == b.field_id
    &&& a.name == b.name
    &&& a.required == b.required
    &&& a.doc == b.doc
    &&& a.initial_default == b.initial_default
    &&& a.write_default == b.write_default
}

pub fn agree_but_type(a: &Field, b: &Field) -> (same: bool)
    ensures
        same == same_but_type(a@, b@),
{
    a.field_id == b.field_id && a.name == b.name && a.required == b.required && same_text(
        &a.doc,
        &b.doc,
    ) && same_text(&a.initial_default, &b.initial_default) && same_text(
        &a.write_default,
        &b.write_default,
    )
}

pub fn same_field(a: &Field, b: &Field) -> (same: bool)
    ensures
        same == (a@ == b@),
    decreases a,
{
    if !agree_but_type(a, b) || !same_kind(&a.field_type.kind, &b.field_type.kind) {
        return false;
    }
    let x = &a.field_type.children;
    let y = &b.field_type.children;
    proof {
        lemma_fields_view(x@);
        lemma_fields_view(y@);
    }
    if x.len() != y.len() {
        return false;
    }
    let ghost xs = fields_view(x@);
    let ghost ys = fields_view(y@);
    let mut i: usize = 0;
    while i < x.len()
        invariant
            i <= x@.len(),
            x@.len() == y@.len(),
            *x == a.field_type.children,
            xs == a@.children,
            ys == b@.children,
            xs.len() == x@.len(),
            ys.len() == y@.len(),
            forall|k: int| 0 <= k < x@.len() ==> #[trigger] xs[k] == field_view(&x@[k]),
            forall|k: int| 0 <= k < y@.len() ==> #[trigger] ys[k] == field_view(&y@[k]),
            forall|k: int| 0 <= k < i ==> #[trigger] xs[k] == ys[k],
        decreases x@.len() - i,
    {
        if !same_field(&x[i], &y[i]) {
            assert(xs[i as int] != ys[i as int]);
            return false;
        }
        assert(xs[i as int] == ys[i as int]);
        i = i + 1;
    }
    assert(xs =~= ys);
    true
}

impl TypeKind {
    pub fn is_primitive(&self) -> (primitive: bool)
        ensures
            primitive == (kind_view(*self) is Primitive),
    {
        match self {
            TypeKind::Primitive(_) => true,
            _ => false,
        }
    }

    pub fn is_float(&self) -> (float: bool)
        ensures
            float == (kind_view(*self) matches KindView::Primitive(_, float) && float),
    {
        match self {
            TypeKind::Primitive(p) => p.float,
            _ => false,
        }
    }
}

/// A field and every field below it, each before its children.
pub open spec fn field_ids(field: FieldView) -> Seq<u32>
    decreases field,
{
    seq![field.field_id] + all_field_ids(field.children)
}

pub open spec fn all_field_ids(fields: Seq<FieldView>) -> Seq<u32>
    decreases fields,
{
    if fields.len() == 0 {
        Seq::empty()
    } else {
        all_field_ids(fields.drop_last()) + field_ids(fields.last())
    }
}

/// Whether a field and all below it are optional.
pub open spec fn all_optional(field: FieldView) -> bool
    decreases field,
{
    !field.required && each_optional(field.children)
}

pub open spec fn each_optional(fields: Seq<FieldView>) -> bool
    decreases fields,
{
    fields.len() == 0 || (each_optional(fields.drop_last()) && all_optional(fields.last()))
}

pub open spec fn invalid_view(message: Seq<char>) -> ErrorView {
    ErrorView::InvalidTransaction(message)
}

pub(crate) fn invalid(message: &str) -> (e: RuntimeError)
    ensures
        e@ == ErrorView::InvalidTransaction(message@),
{
    RuntimeError::InvalidTransaction(message.to_owned())
}

/// The identifiers of the fields that `new` adds to `old`, in the order of
/// `new`; or why the change is not an addition.
pub open spec fn additions(old_fields: Seq<FieldView>, new_fields: Seq<FieldView>) -> Result<
    Seq<u32>,
    ErrorView,
>
    decreases old_fields,
{
    if new_fields.len() < old_fields.len() {
        Err(invalid_view("field removal"@))
    } else {
        match kept_additions(old_fields, new_fields, old_fields.len()) {
            Err(e) => Err(e),
            Ok(ids) => {
                let added = new_fields.skip(old_fields.len() as int);
                if each_optional(added) {
                    Ok(ids + all_field_ids(added))
                } else {
                    Err(invalid_view("new fields must be optional"@))
                }
            },
        }
    }
}

/// The additions below the first `n` fields, which both lists have.
pub open spec fn kept_additions(
    old_fields: Seq<FieldView>,
    new_fields: Seq<FieldView>,
    n: nat,
) -> Result<Seq<u32>, ErrorView>
    decreases old_fields, n,
    when n <= old_fields.len() && n <= new_fields.len()
{
    if n == 0 {
        Ok(Seq::empty())
    } else {
        match kept_additions(old_fields, new_fields, (n - 1) as nat) {
            Err(e) => Err(e),
            Ok(ids) => {
                match changed_field(old_fields[n - 1], new_fields[n - 1]) {
                    Err(e) => Err(e),
                    Ok(more) => Ok(ids + more),
                }
            },
        }
    }
}

/// The additions below one field.
pub open spec fn changed_field(a: FieldView, b: FieldView) -> Result<Seq<u32>, ErrorView>
    decreases a, 0nat,
{
    if !same_but_type(a, b) {
        Err(invalid_view("existing field changed or reordered"@))
    } else if (a.kind is Struct && b.kind is Struct) || (a.kind is List && b.kind is List) {
        additions(a.children, b.children)
    } else if a.kind is Mapping && b.kind is Mapping && a.children.len() == 2 && b.children.len()
        == 2 && a.children[0] == b.children[0] {
        additions(a.children.skip(1), b.children.skip(1))
    } else if a.kind == b.kind && a.children == b.children {
        Ok(Seq::empty())
    } else {
        Err(invalid_view("type change is not additive"@))
    }
}

pub open spec fn increasing(ids: Seq<u32>) -> bool {
    forall|i: int, j: int|
        #![trigger ids[i], ids[j]]
        0 <= i < j < ids.len() ==> ids[i] < ids[j]
}

/// Adds a number to an increasing list, where it is not in it yet.
pub fn insert_number(ids: &mut Vec<u32>, id: u32)
    requires
        increasing(old(ids)@),
    ensures
        increasing(final(ids)@),
        forall|x: u32| #[trigger] final(ids)@.contains(x) <==> old(ids)@.contains(x) || x == id,
{
    let mut at: usize = 0;
    while at < ids.len() && ids[at] < id
        invariant
            at <= ids@.len(),
            ids@ == old(ids)@,
            increasing(ids@),
            forall|k: int| 0 <= k < at ==> #[trigger] ids@[k] < id,
        decreases ids@.len() - at,
    {
        at = at + 1;
    }
    if at < ids.len() && ids[at] == id {
        assert(ids@.contains(id));
        return;
    }
    let ghost before = ids@;
    ids.insert(at, id);
    proof {
        assert forall|x: u32| #[trigger] ids@.contains(x) <==> before.contains(x) || x == id by {
            if ids@.contains(x) && x != id {
                let k = choose|k: int| 0 <= k < ids@.len() && ids@[k] == x;
                if k < at {
                    assert(before[k] == x);
                } else {
                    assert(before[k - 1] == x);
                }
            }
            if before.contains(x) {
                let k = choose|k: int| 0 <= k < before.len() && before[k] == x;
                if k < at {
                    assert(ids@[k] == x);
                } else {
                    assert(ids@[k + 1] == x);
                }
            }
            if x == id {
                assert(ids@[at as int] == x);
            }
        }
    }
}

/// The list holds what it held and the given numbers.
pub open spec fn extended(before: Seq<u32>, added: Seq<u32>, after: Seq<u32>) -> bool {
    forall|x: u32| #[trigger] after.contains(x) <==> before.contains(x) || added.contains(x)
}

proof fn lemma_join_numbers(a: Seq<u32>, b: Seq<u32>)
    ensures
        forall|x: u32| #[trigger] (a + b).contains(x) <==> a.contains(x) || b.contains(x),
{
    assert forall|x: u32| #[trigger] (a + b).contains(x) <==> a.contains(x) || b.contains(x) by {
        let j = a + b;
        if j.contains(x) {
            let k = choose|k: int| 0 <= k < j.len() && j[k] == x;
            if k < a.len() {
                assert(a[k] == x);
            } else {
                assert(b[k - a.len()] == x);
            }
        }
        if a.contains(x) {
            let k = choose|k: int| 0 <= k < a.len() && a[k] == x;
            assert(j[k] == x);
        }
        if b.contains(x) {
            let k = choose|k: int| 0 <= k < b.len() && b[k] == x;
            assert(j[a.len() + k] == x);
        }
    }
}

proof fn lemma_optional_prefix(fields: Seq<FieldView>, n: int)
    requires
        0 <= n < fields.len(),
        !all_optional(fields[n]),
    ensures
        !each_optional(fields),
    decreases fields.len(),
{
    if n < fields.len() - 1 {
        assert(fields.drop_last()[n] == fields[n]);
        lemma_optional_prefix(fields.drop_last(), n);
    }
}

/// Collects a new field and all below it.
fn collect_new_field(field: &Field, ids: &mut Vec<u32>) -> (r: Result<(), RuntimeError>)
    requires
        increasing(old(ids)@),
    ensures
        match r {
            Ok(()) => {
                &&& all_optional(field@)
                &&& increasing(final(ids)@)
                &&& extended(old(ids)@, field_ids(field@), final(ids)@)
            },
            Err(e) => {
                &&& !all_optional(field@)
                &&& e@ == invalid_view("new fields must be optional"@)
            },
        },
    decreases field,
{
    if field.required {
        return Err(invalid("new fields must be optional"));
    }
    insert_number(ids, field.field_id);
    let children = &field.field_type.children;
    let ghost own = seq![field.field_id];
    let ghost all = fields_view(children@);
    proof {
        lemma_fields_view(children@);
        assert(all.take(0) =~= Seq::<FieldView>::empty());
        assert(own[0] == field.field_id);
        lemma_join_numbers(own, all_field_ids(all.take(0)));
    }
    let mut i: usize = 0;
    while i < children.len()
        invariant
            i <= children@.len(),
            *children == field.field_type.children,
            all == fields_view(children@),
            all == field@.children,
            !field@.required,
            all.len() == children@.len(),
            forall|k: int| 0 <= k < all.len() ==> #[trigger] all[k] == field_view(&children@[k]),
            each_optional(all.take(i as int)),
            increasing(ids@),
            own == seq![field@.field_id],
            extended(old(ids)@, own + all_field_ids(all.take(i as int)), ids@),
        decreases children@.len() - i,
    {
        let ghost before = ids@;
        assert(all.take(i + 1).drop_last() =~= all.take(i as int));
        match collect_new_field(&children[i], ids) {
            Err(e) => {
                proof {
                    lemma_optional_prefix(all, i as int);
                }
                return Err(e);
            },
            Ok(()) => {},
        }
        proof {
            let done = all_field_ids(all.take(i as int));
            let more = field_ids(all[i as int]);
            assert(own + (done + more) =~= (own + done) + more);
            lemma_join_numbers(own + done, more);
        }
        i = i + 1;
    }
    assert(all.take(i as int) =~= all);
    Ok(())
}

proof fn lemma_kept_prefix(a: Seq<FieldView>, b: Seq<FieldView>, n: nat, m: nat)
    requires
        n <= m <= a.len(),
        m <= b.len(),
        kept_additions(a, b, n) is Err,
    ensures
        kept_additions(a, b, m) == kept_additions(a, b, n),
    decreases m,
{
    if n < m {
        lemma_kept_prefix(a, b, n, (m - 1) as nat);
    }
}

/// Collects the fields that `new` adds to `old`.
fn additive_fields(
    old_fields: &Vec<Field>,
    new_fields: &Vec<Field>,
    from: usize,
    ids: &mut Vec<u32>,
) -> (r: Result<(), RuntimeError>)
    requires
        from <= old_fields@.len(),
        from <= new_fields@.len(),
        increasing(old(ids)@),
    ensures
        ({
            let plan = additions(
                fields_view(old_fields@).skip(from as int),
                fields_view(new_fields@).skip(from as int),
            );
            match r {
                Ok(()) => {
                    &&& increasing(final(ids)@)
                    &&& plan matches Ok(added)
                    &&& extended(old(ids)@, added, final(ids)@)
                },
                Err(e) => plan == Err::<Seq<u32>, ErrorView>(e@),
            }
        }),
    decreases old_fields@,
{
    let ghost a = fields_view(old_fields@).skip(from as int);
    let ghost b = fields_view(new_fields@).skip(from as int);
    proof {
        lemma_fields_view(old_fields@);
        lemma_fields_view(new_fields@);
    }
    if new_fields.len() < old_fields.len() {
        return Err(invalid("field removal"));
    }
    let ghost n = (old_fields@.len() - from) as nat;
    assert(extended(ids@, Seq::empty(), ids@));
    let mut i: usize = from;
    while i < old_fields.len()
        invariant
            from <= i <= old_fields@.len() <= new_fields@.len(),
            n == old_fields@.len() - from,
            a == fields_view(old_fields@).skip(from as int),
            b == fields_view(new_fields@).skip(from as int),
            fields_view(old_fields@).len() == old_fields@.len(),
            fields_view(new_fields@).len() == new_fields@.len(),
            forall|k: int|
                0 <= k < old_fields@.len() ==> #[trigger] fields_view(old_fields@)[k] == field_view(
                    &old_fields@[k],
                ),
            forall|k: int|
                0 <= k < new_fields@.len() ==> #[trigger] fields_view(new_fields@)[k] == field_view(
                    &new_fields@[k],
                ),
            increasing(ids@),
            kept_additions(a, b, (i - from) as nat) matches Ok(added) && extended(
                old(ids)@,
                added,
                ids@,
            ),
        decreases old_fields@.len() - i,
    {
        let ghost done = kept_additions(a, b, (i - from) as nat)->Ok_0;
        let ghost before = ids@;
        let x = &old_fields[i];
        let y = &new_fields[i];
        let ghost plan = changed_field(x@, y@);
        proof {
            assert(a[i - from] == x@);
            assert(b[i - from] == y@);
            assert(kept_additions(a, b, (i - from + 1) as nat) == match plan {
                Err(e) => Err(e),
                Ok(more) => Ok(done + more),
            });
            if plan is Err {
                lemma_kept_prefix(a, b, (i - from + 1) as nat, n);
            }
            lemma_fields_view(x.field_type.children@);
            lemma_fields_view(y.field_type.children@);
        }
        if !agree_but_type(x, y) {
            return Err(invalid("existing field changed or reordered"));
        }
        let xs = &x.field_type.children;
        let ys = &y.field_type.children;
        let start: Option<usize> = match (&x.field_type.kind, &y.field_type.kind) {
            (TypeKind::Struct, TypeKind::Struct) => Some(0),
            (TypeKind::List, TypeKind::List) => Some(0),
            (TypeKind::Mapping, TypeKind::Mapping) => if xs.len() == 2 && ys.len() == 2
                && same_field(&xs[0], &ys[0]) {
                Some(1)
            } else {
                None
            },
            _ => None,
        };
        match start {
            Some(start) => {
                proof {
                    assert(x@.children.skip(0) =~= x@.children);
                    assert(y@.children.skip(0) =~= y@.children);
                    assert(decreases_to!(old_fields@ => old_fields@[i as int]));
                    assert(decreases_to!(old_fields@[i as int] => old_fields@[i as int].field_type));
                    assert(decreases_to!(
                        old_fields@[i as int].field_type => old_fields@[i as int].field_type.children
                    ));
                    assert(decreases_to!(xs => xs@));
                }
                match additive_fields(xs, ys, start, ids) {
                    Err(e) => {
                        return Err(e);
                    },
                    Ok(()) => {},
                }
                proof {
                    lemma_join_numbers(done, plan->Ok_0);
                }
            },
            None => {
                if !same_kind(&x.field_type.kind, &y.field_type.kind) || !same_fields(xs, ys) {
                    return Err(invalid("type change is not additive"));
                }
                assert(done + Seq::<u32>::empty() =~= done);
            },
        }
        i = i + 1;
    }
    let ghost kept = kept_additions(a, b, n)->Ok_0;
    let ghost added = b.skip(a.len() as int);
    proof {
        assert(added =~= fields_view(new_fields@).skip(old_fields@.len() as int));
        assert(added.take(0) =~= Seq::<FieldView>::empty());
        assert(kept + all_field_ids(added.take(0)) =~= kept);
    }
    while i < new_fields.len()
        invariant
            old_fields@.len() <= i <= new_fields@.len(),
            a.len() == n,
            n <= b.len(),
            added == b.skip(a.len() as int),
            additions(a, b) == (if each_optional(added) {
                Ok(kept + all_field_ids(added))
            } else {
                Err(invalid_view("new fields must be optional"@))
            }),
            a == fields_view(old_fields@).skip(from as int),
            b == fields_view(new_fields@).skip(from as int),
            added.len() == new_fields@.len() - old_fields@.len(),
            forall|k: int|
                0 <= k < added.len() ==> #[trigger] added[k] == field_view(
                    &new_fields@[old_fields@.len() + k],
                ),
            increasing(ids@),
            each_optional(added.take(i - old_fields@.len())),
            extended(
                old(ids)@,
                kept + all_field_ids(added.take(i - old_fields@.len())),
                ids@,
            ),
        decreases new_fields@.len() - i,
    {
        let ghost k = i - old_fields@.len();
        let ghost before = ids@;
        assert(added.take(k + 1).drop_last() =~= added.take(k));
        assert(added[k] == field_view(&new_fields@[i as int]));
        match collect_new_field(&new_fields[i], ids) {
            Err(e) => {
                proof {
                    lemma_optional_prefix(added, k);
                }
                return Err(e);
            },
            Ok(()) => {},
        }
        proof {
            let done = all_field_ids(added.take(k));
            let more = field_ids(added[k]);
            assert(kept + (done + more) =~= (kept + done) + more);
            lemma_join_numbers(kept + done, more);
        }
        i = i + 1;
    }
    assert(added.take(i - old_fields@.len()) =~= added);
    Ok(())
}

fn same_fields(a: &Vec<Field>, b: &Vec<Field>) -> (same: bool)
    ensures
        same == (fields_view(a@) == fields_view(b@)),
{
    let ghost x = fields_view(a@);
    let ghost y = fields_view(b@);
    proof {
        lemma_fields_view(a@);
        lemma_fields_view(b@);
    }
    if a.len() != b.len() {
        return false;
    }
    let mut i: usize = 0;
    while i < a.len()
        invariant
            i <= a@.len(),
            a@.len() == b@.len(),
            x == fields_view(a@),
            y == fields_view(b@),
            x.len() == a@.len(),
            y.len() == b@.len(),
            forall|k: int| 0 <= k < a@.len() ==> #[trigger] x[k] == field_view(&a@[k]),
            forall|k: int| 0 <= k < b@.len() ==> #[trigger] y[k] == field_view(&b@[k]),
            forall|k: int| 0 <= k < i ==> #[trigger] x[k] == y[k],
        decreases a@.len() - i,
    {
        if !same_field(&a[i], &b[i]) {
            assert(x[i as int] != y[i as int]);
            return false;
        }
        assert(x[i as int] == y[i as int]);
        i = i + 1;
    }
    assert(x =~= y);
    true
}

pub fn same_numbers(a: &Vec<u32>, b: &Vec<u32>) -> (same: bool)
    ensures
        same == (a@ == b@),
{
    if a.len() != b.len() {
        return false;
    }
    let mut i: usize = 0;
    while i < a.len()
        invariant
            i <= a@.len(),
            a@.len() == b@.len(),
            forall|k: int| 0 <= k < i ==> #[trigger] a@[k] == b@[k],
        decreases a@.len() - i,
    {
        if a[i] != b[i] {
            return false;
        }
        i = i + 1;
    }
    assert(a@ =~= b@);
    true
}

/// What schema `new` adds to schema `old`.
pub open spec fn schema_additions(old_schema: SchemaView, new_schema: SchemaView) -> Result<
    Seq<u32>,
    ErrorView,
> {
    if new_schema.parent_schema_id != Some(old_schema.schema_id) || new_schema.identifier_field_ids
        != old_schema.identifier_field_ids {
        Err(invalid_view("schema parent or identifiers changed"@))
    } else {
        additions(old_schema.fields, new_schema.fields)
    }
}

/// The identifiers of the fields that a schema adds to its parent, in
/// increasing order.
pub fn additive_schema(old_schema: &Schema, new_schema: &Schema) -> (r: Result<
    Vec<u32>,
    RuntimeError,
>)
    ensures
        match r {
            Ok(ids) => {
                &&& schema_additions(old_schema@, new_schema@) matches Ok(added)
                &&& increasing(ids@)
                &&& forall|x: u32| #[trigger] ids@.contains(x) <==> added.contains(x)
            },
            Err(e) => schema_additions(old_schema@, new_schema@) == Err::<Seq<u32>, ErrorView>(e@),
        },
{
    let follows: bool = match new_schema.parent_schema_id {
        Some(parent) => parent == old_schema.schema_id,
        None => false,
    };
    if !follows || !same_numbers(
        &new_schema.identifier_field_ids,
        &old_schema.identifier_field_ids,
    ) {
        return Err(invalid("schema parent or identifiers changed"));
    }
    let mut ids: Vec<u32> = Vec::new();
    proof {
        assert(fields_view(old_schema.fields@).skip(0) =~= old_schema@.fields);
        assert(fields_view(new_schema.fields@).skip(0) =~= new_schema@.fields);
    }
    match additive_fields(&old_schema.fields, &new_schema.fields, 0, &mut ids) {
        Err(e) => Err(e),
        Ok(()) => Ok(ids),
    }
}

pub fn copy_text(text: &Option<String>) -> (copy: Option<String>)
    ensures
        text_view(copy) == text_view(*text),
{
    match text {
        None => None,
        Some(text) => Some(text.clone()),
    }
}

/// A copy of a field and all below it.
pub fn copy_field(field: &Field) -> (copy: Field)
    ensures
        copy@ == field@,
    decreases field,
{
    let kind = match &field.field_type.kind {
        TypeKind::Primitive(p) => TypeKind::Primitive(
            PrimitiveType { text: p.text.clone(), float: p.float },
        ),
        TypeKind::Struct => TypeKind::Struct,
        TypeKind::List => TypeKind::List,
        TypeKind::Mapping => TypeKind::Mapping,
    };
    let children = &field.field_type.children;
    let mut out: Vec<Field> = Vec::new();
    let mut i: usize = 0;
    proof {
        assert(children@.take(0) =~= Seq::<Field>::empty());
        assert(out@ =~= Seq::<Field>::empty());
    }
    while i < children.len()
        invariant
            i <= children@.len(),
            *children == field.field_type.children,
            fields_view(out@) == fields_view(children@.take(i as int)),
        decreases children@.len() - i,
    {
        let ghost before = out@;
        proof {
            assert(decreases_to!(*field => field.field_type));
            assert(decreases_to!(field.field_type => field.field_type.children));
            assert(decreases_to!(children => children@));
            assert(decreases_to!(children@ => children@[i as int]));
        }
        let child = copy_field(&children[i]);
        out.push(child);
        proof {
            assert(out@.drop_last() =~= before);
            assert(children@.take(i + 1).drop_last() =~= children@.take(i as int));
        }
        i = i + 1;
    }
    assert(children@.take(i as int) =~= children@);
    Field {
        field_id: field.field_id,
        name: field.name.clone(),
        required: field.required,
        field_type: LogicalType { kind, children: out },
        doc: copy_text(&field.doc),
        initial_default: copy_text(&field.initial_default),
        write_default: copy_text(&field.write_default),
    }
}

} // verus!

//! Schemas as the reader rebuilds them from their rows.
use crate::cells::{
    cells_view, check_ordinals, counts_up, invalid_named, optional_text, optional_u32,
    required_bool, required_text, required_u32, small_of, Cell, CellView,
};
use crate::error::{corrupt, ErrorView, RuntimeError};
use crate::schema::{
    all_field_ids, copy_field, field_ids, field_view, fields_view, lemma_fields_view, same_field,
    text_view, Field, FieldView, LogicalType, Schema,
};
use crate::schema_rows::{are_contiguous, child_at, child_count, children_of, ordinals_contiguous};
use crate::tables::FieldRow;
use vstd::prelude::*;

verus! {

/// The protocol's reading of types, defaults and schemas.
pub trait SchemaCodec {
    fn parse_type(&self, text: &String) -> Result<LogicalType, RuntimeError>;

    fn check_scalar(&self, text: &String) -> Result<(), RuntimeError>;

    fn validate_schema(&self, schema: &Schema) -> Result<(), RuntimeError>;
}

/// The protocol refused the type in a value.
pub open spec fn type_refused<C: SchemaCodec>(codec: C, cell: CellView, e: RuntimeError) -> bool {
    exists|text: String|
        cell == CellView::Text(text@) && #[trigger] call_ensures(
            C::parse_type,
            (&codec, &text),
            Err::<LogicalType, RuntimeError>(e),
        )
}

/// The protocol refused the default in a value.
pub open spec fn scalar_refused<C: SchemaCodec>(codec: C, cell: CellView, e: RuntimeError) -> bool {
    exists|text: String|
        cell == CellView::Text(text@) && #[trigger] call_ensures(
            C::check_scalar,
            (&codec, &text),
            Err::<(), RuntimeError>(e),
        )
}

pub open spec fn is_optional_text(cell: CellView, text: Option<Seq<char>>) -> bool {
    match text {
        None => cell is Null,
        Some(text) => cell == CellView::Text(text),
    }
}

pub open spec fn is_optional_number(cell: CellView, n: Option<u32>) -> bool {
    match n {
        None => cell is Null,
        Some(n) => small_of(cell) == Some(n),
    }
}

/// Whether a row holds a field. Its type is what the codec reads.
pub open spec fn holds_field<C: SchemaCodec>(codec: C, row: Seq<CellView>, field: FieldRow) -> bool {
    &&& row.len() == 9
    &&& small_of(row[0]) == Some(field.field.field_id)
    &&& is_optional_number(row[1], field.parent)
    &&& row[2] == CellView::Text(field.field.name@)
    &&& small_of(row[3]) == Some(field.ordinal)
    &&& row[4] == CellView::Integer(
        if field.field.required {
            1
        } else {
            0
        },
    )
    &&& row[5] is Text
    &&& exists|text: String|
        row[5] == CellView::Text(text@) && #[trigger] call_ensures(
            C::parse_type,
            (&codec, &text),
            Ok::<LogicalType, RuntimeError>(field.field.field_type),
        )
    &&& is_optional_text(row[6], text_view(field.field.doc))
    &&& is_optional_text(row[7], text_view(field.field.initial_default))
    &&& is_optional_text(row[8], text_view(field.field.write_default))
}

/// The protocol reads the type in a value.
pub open spec fn type_accepted<C: SchemaCodec>(codec: C, cell: CellView) -> bool {
    exists|text: String, kind: LogicalType|
        cell == CellView::Text(text@) && #[trigger] call_ensures(
            C::parse_type,
            (&codec, &text),
            Ok::<LogicalType, RuntimeError>(kind),
        )
}

/// The value is no default, or one that the protocol accepts.
pub open spec fn scalar_accepted<C: SchemaCodec>(codec: C, cell: CellView) -> bool {
    cell is Null || exists|text: String, verdict: Result<(), RuntimeError>|
        cell == CellView::Text(text@) && verdict is Ok && #[trigger] call_ensures(
            C::check_scalar,
            (&codec, &text),
            verdict,
        )
}

/// Why a value cannot be read as a default that may be missing.
pub open spec fn scalar_fault<C: SchemaCodec>(
    codec: C,
    cell: CellView,
    name: Seq<char>,
    e: RuntimeError,
) -> bool {
    &&& !(cell is Null)
    &&& if cell is Text {
        scalar_refused(codec, cell, e)
    } else {
        e@ == invalid_named(name)
    }
}

/// The first fault of a field's row: its columns are read one by one.
pub open spec fn field_fault<C: SchemaCodec>(
    codec: C,
    row: Seq<CellView>,
    e: RuntimeError,
) -> bool {
    if row.len() != 9 {
        e@ == ErrorView::Corrupt("invalid normalized schema field row"@)
    } else {
        let numbered = small_of(row[0]) is Some;
        let placed = numbered && (row[1] is Null || small_of(row[1]) is Some);
        let ordered = placed && small_of(row[3]) is Some;
        let named = ordered && row[2] is Text;
        let required = named && (row[4] == CellView::Integer(0) || row[4] == CellView::Integer(1));
        let typed = required && type_accepted(codec, row[5]);
        let documented = typed && (row[6] is Null || row[6] is Text);
        let initial = documented && scalar_accepted(codec, row[7]);
        ||| !numbered && e@ == invalid_named("field ID"@)
        ||| numbered && !placed && e@ == invalid_named("parent field ID"@)
        ||| placed && !ordered && e@ == invalid_named("field ordinal"@)
        ||| ordered && !named && e@ == invalid_named("field name"@)
        ||| named && !required && e@ == match row[4] {
            CellView::Integer(_) => ErrorView::Corrupt("required must be zero or one"@),
            _ => invalid_named("required"@),
        }
        ||| required && if row[5] is Text {
            type_refused(codec, row[5], e)
        } else {
            e@ == invalid_named("field type"@)
        }
        ||| typed && !documented && e@ == invalid_named("field doc"@)
        ||| documented && scalar_fault(codec, row[7], "initial default"@, e)
        ||| initial && scalar_fault(codec, row[8], "write default"@, e)
    }
}

fn optional_scalar<C: SchemaCodec>(codec: &C, cell: &Cell, name: &str) -> (r: Result<
    Option<String>,
    RuntimeError,
>)
    ensures
        match r {
            Ok(text) => is_optional_text(cell@, text_view(text)) && scalar_accepted(*codec, cell@),
            Err(e) => scalar_fault(*codec, cell@, name@, e),
        },
{
    match optional_text(cell, name) {
        Err(e) => Err(e),
        Ok(None) => Ok(None),
        Ok(Some(text)) => {
            let verdict = codec.check_scalar(&text);
            assert(call_ensures(C::check_scalar, (codec, &text), verdict));
            match verdict {
                Err(e) => Err(e),
                Ok(_) => Ok(Some(text)),
            }
        },
    }
}

/// Reads a field from its row.
#[verifier::rlimit(40)]
pub fn read_field<C: SchemaCodec>(codec: &C, row: &Vec<Cell>) -> (r: Result<FieldRow, RuntimeError>)
    ensures
        match r {
            Ok(field) => holds_field(*codec, cells_view(row@), field),
            Err(e) => field_fault(*codec, cells_view(row@), e),
        },
{
    let ghost cells = cells_view(row@);
    if row.len() != 9 {
        return Err(corrupt("invalid normalized schema field row"));
    }
    assert forall|i: int| 0 <= i < 9 implies #[trigger] cells[i] == row@[i]@ by {}
    let field_id: u32 = required_u32(&row[0], "field ID")?;
    let parent: Option<u32> = optional_u32(&row[1], "parent field ID")?;
    let ordinal: u32 = required_u32(&row[3], "field ordinal")?;
    let name = required_text(&row[2], "field name")?;
    let required: bool = required_bool(&row[4])?;
    let type_text = required_text(&row[5], "field type")?;
    let field_type = match codec.parse_type(&type_text) {
        Err(e) => {
            assert(call_ensures(
                C::parse_type,
                (codec, &type_text),
                Err::<LogicalType, RuntimeError>(e),
            ));
            assert(type_refused(*codec, cells[5], e));
            return Err(e);
        },
        Ok(field_type) => field_type,
    };
    assert(call_ensures(
        C::parse_type,
        (codec, &type_text),
        Ok::<LogicalType, RuntimeError>(field_type),
    ));
    let doc = optional_text(&row[6], "field doc")?;
    let initial_default = optional_scalar(codec, &row[7], "initial default")?;
    let write_default = optional_scalar(codec, &row[8], "write default")?;
    Ok(
        FieldRow {
            parent,
            ordinal,
            field: Field {
                field_id,
                name,
                required,
                field_type,
                doc,
                initial_default,
                write_default,
            },
        },
    )
}

/// Rows in the order of their fields, one for each.
pub open spec fn by_field(rows: Seq<FieldRow>) -> bool {
    forall|i: int, j: int|
        #![trigger rows[i], rows[j]]
        0 <= i < j < rows.len() ==> rows[i].field.field_id < rows[j].field.field_id
}

/// Puts a row where its field belongs, unless the field has one.
pub fn insert_field(rows: &mut Vec<FieldRow>, row: FieldRow) -> (r: Result<(), RuntimeError>)
    requires
        by_field(old(rows)@),
    ensures
        by_field(final(rows)@),
        match r {
            Ok(()) => exists|at: int|
                0 <= at <= old(rows)@.len() && final(rows)@ == #[trigger] old(rows)@.insert(at, row),
            Err(e) => {
                &&& final(rows)@ == old(rows)@
                &&& has_field(old(rows)@, row.field.field_id)
                &&& e@ == ErrorView::Corrupt("duplicate normalized field ID"@)
            },
        },
{
    let ghost before = rows@;
    let mut at: usize = 0;
    while at < rows.len() && rows[at].field.field_id < row.field.field_id
        invariant
            at <= rows@.len(),
            rows@ == before,
            forall|k: int|
                0 <= k < at ==> (#[trigger] before[k]).field.field_id < row.field.field_id,
        decreases rows@.len() - at,
    {
        at = at + 1;
    }
    if at < rows.len() && rows[at].field.field_id == row.field.field_id {
        assert(before[at as int].field.field_id == row.field.field_id);
        return Err(corrupt("duplicate normalized field ID"));
    }
    rows.insert(at, row);
    proof {
        assert forall|i: int, j: int|
            #![trigger rows@[i], rows@[j]]
            0 <= i < j < rows@.len() implies rows@[i].field.field_id < rows@[j].field.field_id by {
            if j == at {
                assert(rows@[i] == before[i]);
            } else if i == at {
                assert(rows@[j] == before[j - 1]);
                assert(row.field.field_id < before[at as int].field.field_id);
                if j - 1 > at {
                    assert(before[at as int].field.field_id < before[j - 1].field.field_id);
                }
            } else {
                let a = if i < at {
                    i
                } else {
                    i - 1
                };
                let b = if j < at {
                    j
                } else {
                    j - 1
                };
                assert(rows@[i] == before[a]);
                assert(rows@[j] == before[b]);
                assert(before[a].field.field_id < before[b].field.field_id);
            }
        }
        assert(rows@ == before.insert(at as int, row));
    }
    Ok(())
}

pub open spec fn has_field(rows: Seq<FieldRow>, id: u32) -> bool {
    exists|i: int| 0 <= i < rows.len() && (#[trigger] rows[i]).field.field_id == id
}

/// The first row of a field.
pub open spec fn row_of(rows: Seq<FieldRow>, id: u32) -> Option<FieldRow>
    decreases rows.len(),
{
    if rows.len() == 0 {
        None
    } else if rows[0].field.field_id == id {
        Some(rows[0])
    } else {
        row_of(rows.skip(1), id)
    }
}

fn find_row<'a>(rows: &'a Vec<FieldRow>, id: u32) -> (found: Option<&'a FieldRow>)
    ensures
        match found {
            Some(row) => row_of(rows@, id) == Some(*row),
            None => row_of(rows@, id) is None,
        },
{
    let mut i: usize = 0;
    assert(rows@.skip(0) =~= rows@);
    while i < rows.len()
        invariant
            i <= rows@.len(),
            row_of(rows@, id) == row_of(rows@.skip(i as int), id),
        decreases rows@.len() - i,
    {
        assert(rows@.skip(i as int).skip(1) =~= rows@.skip(i + 1));
        if rows[i].field.field_id == id {
            return Some(&rows[i]);
        }
        i = i + 1;
    }
    None
}

/// The ordinals of the rows under a field, in the order of the rows.
pub open spec fn child_ordinals(rows: Seq<FieldRow>, parent: u32) -> Seq<u32>
    decreases rows.len(),
{
    if rows.len() == 0 {
        Seq::empty()
    } else if rows.last().parent == Some(parent) {
        child_ordinals(rows.drop_last(), parent).push(rows.last().ordinal)
    } else {
        child_ordinals(rows.drop_last(), parent)
    }
}

/// The fields under a field, in the order of the rows.
pub open spec fn child_ids(rows: Seq<FieldRow>, parent: u32) -> Seq<u32>
    decreases rows.len(),
{
    if rows.len() == 0 {
        Seq::empty()
    } else if rows.last().parent == Some(parent) {
        child_ids(rows.drop_last(), parent).push(rows.last().field.field_id)
    } else {
        child_ids(rows.drop_last(), parent)
    }
}

fn is_parent(parent: &Option<u32>, id: u32) -> (same: bool)
    ensures
        same == (*parent == Some(id)),
{
    match parent {
        Some(parent) => *parent == id,
        None => false,
    }
}

fn list_children(rows: &Vec<FieldRow>, parent: u32) -> (lists: (Vec<u32>, Vec<u32>))
    ensures
        lists.0@ == child_ordinals(rows@, parent),
        lists.1@ == child_ids(rows@, parent),
{
    let mut ordinals: Vec<u32> = Vec::new();
    let mut ids: Vec<u32> = Vec::new();
    let mut i: usize = 0;
    assert(ordinals@ =~= child_ordinals(rows@.take(0), parent));
    assert(ids@ =~= child_ids(rows@.take(0), parent));
    while i < rows.len()
        invariant
            i <= rows@.len(),
            ordinals@ == child_ordinals(rows@.take(i as int), parent),
            ids@ == child_ids(rows@.take(i as int), parent),
        decreases rows@.len() - i,
    {
        assert(rows@.take(i + 1).drop_last() =~= rows@.take(i as int));
        if is_parent(&rows[i].parent, parent) {
            ordinals.push(rows[i].ordinal);
            ids.push(rows[i].field.field_id);
        }
        i = i + 1;
    }
    assert(rows@.take(i as int) =~= rows@);
    (ordinals, ids)
}

pub open spec fn ids_of(fields: Seq<FieldView>) -> Seq<u32> {
    Seq::new(fields.len(), |i: int| fields[i].field_id)
}

/// Whether the rows tell of a field and all below it what its type spells out.
pub open spec fn agrees(rows: Seq<FieldRow>, field: FieldView, parent: Option<u32>) -> Result<
    (),
    ErrorView,
>
    decreases field,
{
    match row_of(rows, field.field_id) {
        None => Err(ErrorView::Corrupt("nested field is absent from normalized rows"@)),
        Some(row) => if row.parent != parent || row.field@ != field {
            Err(ErrorView::Corrupt("normalized field disagrees with recursive schema"@))
        } else if child_ids(rows, field.field_id) != ids_of(field.children) {
            Err(ErrorView::Corrupt("normalized child ordering differs from recursive schema"@))
        } else {
            all_agree(rows, field.children, Some(field.field_id))
        },
    }
}

pub open spec fn all_agree(
    rows: Seq<FieldRow>,
    fields: Seq<FieldView>,
    parent: Option<u32>,
) -> Result<(), ErrorView>
    decreases fields,
{
    if fields.len() == 0 {
        Ok(())
    } else {
        match all_agree(rows, fields.drop_last(), parent) {
            Err(e) => Err(e),
            Ok(()) => agrees(rows, fields.last(), parent),
        }
    }
}

proof fn lemma_agree_stop(
    rows: Seq<FieldRow>,
    fields: Seq<FieldView>,
    parent: Option<u32>,
    n: int,
)
    requires
        0 <= n <= fields.len(),
        all_agree(rows, fields.take(n), parent) is Err,
    ensures
        all_agree(rows, fields, parent) == all_agree(rows, fields.take(n), parent),
    decreases fields.len(),
{
    if n < fields.len() {
        assert(fields.drop_last().take(n) =~= fields.take(n));
        lemma_agree_stop(rows, fields.drop_last(), parent, n);
    } else {
        assert(fields.take(n) =~= fields);
    }
}

fn ids_match(ids: &Vec<u32>, fields: &Vec<Field>) -> (same: bool)
    ensures
        same == (ids@ == ids_of(fields_view(fields@))),
{
    proof {
        lemma_fields_view(fields@);
    }
    if ids.len() != fields.len() {
        return false;
    }
    let mut i: usize = 0;
    while i < ids.len()
        invariant
            i <= ids@.len(),
            ids@.len() == fields@.len(),
            fields_view(fields@).len() == fields@.len(),
            forall|k: int|
                0 <= k < fields@.len() ==> #[trigger] fields_view(fields@)[k] == field_view(
                    &fields@[k],
                ),
            forall|k: int| 0 <= k < i ==> #[trigger] ids@[k] == ids_of(fields_view(fields@))[k],
        decreases ids@.len() - i,
    {
        assert(ids_of(fields_view(fields@))[i as int] == fields@[i as int].field_id);
        if ids[i] != fields[i].field_id {
            return false;
        }
        i = i + 1;
    }
    assert(ids@ =~= ids_of(fields_view(fields@)));
    true
}

fn parents_match(a: &Option<u32>, b: &Option<u32>) -> (same: bool)
    ensures
        same == (*a == *b),
{
    match (a, b) {
        (Some(a), Some(b)) => *a == *b,
        (None, None) => true,
        _ => false,
    }
}

/// Checks a field and all below it against the rows.
pub fn validate_tree(rows: &Vec<FieldRow>, field: &Field, parent: Option<u32>) -> (r: Result<
    (),
    RuntimeError,
>)
    ensures
        match r {
            Ok(()) => agrees(rows@, field@, parent) is Ok,
            Err(e) => agrees(rows@, field@, parent) == Err::<(), ErrorView>(e@),
        },
    decreases field,
{
    match find_row(rows, field.field_id) {
        None => {
            return Err(corrupt("nested field is absent from normalized rows"));
        },
        Some(row) => {
            if !parents_match(&row.parent, &parent) || !same_field(&row.field, field) {
                return Err(corrupt("normalized field disagrees with recursive schema"));
            }
        },
    }
    let children = &field.field_type.children;
    let (_, ids) = list_children(rows, field.field_id);
    if !ids_match(&ids, children) {
        return Err(corrupt("normalized child ordering differs from recursive schema"));
    }
    let ghost all = fields_view(children@);
    let ghost here = Some(field.field_id);
    proof {
        lemma_fields_view(children@);
        assert(all.take(0) =~= Seq::<FieldView>::empty());
    }
    let mut i: usize = 0;
    while i < children.len()
        invariant
            i <= children@.len(),
            *children == field.field_type.children,
            all == fields_view(children@),
            all == field@.children,
            here == Some(field.field_id),
            all.len() == children@.len(),
            forall|k: int| 0 <= k < all.len() ==> #[trigger] all[k] == field_view(&children@[k]),
            agrees(rows@, field@, parent) == all_agree(rows@, all, here),
            all_agree(rows@, all.take(i as int), here) is Ok,
        decreases children@.len() - i,
    {
        proof {
            assert(all.take(i + 1).drop_last() =~= all.take(i as int));
            if all_agree(rows@, all.take(i + 1), here) is Err {
                lemma_agree_stop(rows@, all, here, i + 1);
            }
        }
        if let Err(e) = validate_tree(rows, &children[i], Some(field.field_id)) {
            return Err(e);
        }
        i = i + 1;
    }
    assert(all.take(i as int) =~= all);
    Ok(())
}

/// Counts fields and all below them against a budget: what is left of it, if
/// it is enough.
pub fn count_tree(fields: &Vec<Field>, budget: usize) -> (left: Option<usize>)
    ensures
        match left {
            Some(left) => left + all_field_ids(fields_view(fields@)).len() == budget,
            None => all_field_ids(fields_view(fields@)).len() > budget,
        },
    decreases fields,
{
    let ghost all = fields_view(fields@);
    proof {
        lemma_fields_view(fields@);
        assert(all.take(0) =~= Seq::<FieldView>::empty());
    }
    let mut left: usize = budget;
    let mut i: usize = 0;
    while i < fields.len()
        invariant
            i <= fields@.len(),
            all == fields_view(fields@),
            all.len() == fields@.len(),
            forall|k: int| 0 <= k < all.len() ==> #[trigger] all[k] == field_view(&fields@[k]),
            left + all_field_ids(all.take(i as int)).len() == budget,
        decreases fields@.len() - i,
    {
        proof {
            assert(all.take(i + 1).drop_last() =~= all.take(i as int));
            assert(all.take(i + 1).last() == all[i as int]);
            assert(field_ids(all[i as int]).len() == 1 + all_field_ids(
                all[i as int].children,
            ).len());
            assert(all_field_ids(all.take(i + 1)).len() == all_field_ids(
                all.take(i as int),
            ).len() + field_ids(all[i as int]).len());
            lemma_ids_grow(all, i + 1);
        }
        if left == 0 {
            return None;
        }
        let field = &fields[i];
        proof {
            assert(decreases_to!(fields => fields@));
            assert(decreases_to!(fields@ => fields@[i as int]));
            assert(decreases_to!(field => field.field_type));
            assert(decreases_to!(field.field_type => field.field_type.children));
        }
        match count_tree(&field.field_type.children, left - 1) {
            None => {
                return None;
            },
            Some(rest) => {
                left = rest;
            },
        }
        i = i + 1;
    }
    assert(all.take(i as int) =~= all);
    Some(left)
}

proof fn lemma_ids_grow(fields: Seq<FieldView>, n: int)
    requires
        0 <= n <= fields.len(),
    ensures
        all_field_ids(fields.take(n)).len() <= all_field_ids(fields).len(),
    decreases fields.len(),
{
    if n < fields.len() {
        assert(fields.drop_last().take(n) =~= fields.take(n));
        lemma_ids_grow(fields.drop_last(), n);
    } else {
        assert(fields.take(n) =~= fields);
    }
}

pub open spec fn noncontiguous(name: Seq<char>) -> ErrorView {
    ErrorView::Corrupt("noncontiguous "@ + name + " ordinals"@)
}

/// Whether the ordinals of rows count up under each parent.
pub open spec fn ordinals_check(rows: Seq<FieldRow>) -> Result<(), ErrorView> {
    if !ordinals_contiguous(rows, None) {
        Err(noncontiguous("root field"@))
    } else if exists|i: int|
        0 <= i < rows.len() && !counts_up(
            child_ordinals(rows, (#[trigger] rows[i]).field.field_id),
        ) {
        Err(noncontiguous("child field"@))
    } else {
        Ok(())
    }
}

/// Whether rows make the fields of a schema, each row once.
pub open spec fn assembly_check(rows: Seq<FieldRow>) -> Result<(), ErrorView> {
    match all_agree(rows, children_of(rows, None), None) {
        Err(e) => Err(e),
        Ok(()) => if all_field_ids(children_of(rows, None)).len() != rows.len() {
            Err(ErrorView::Corrupt("orphan normalized schema field"@))
        } else {
            Ok(())
        },
    }
}

fn root_at<'a>(rows: &'a Vec<FieldRow>, ordinal: usize) -> (found: Option<&'a Field>)
    ensures
        match found {
            Some(field) => child_at(rows@, None, ordinal as int) == Some(*field),
            None => child_at(rows@, None, ordinal as int) is None,
        },
{
    assert(rows@.skip(0) =~= rows@);
    let mut i: usize = 0;
    while i < rows.len()
        invariant
            i <= rows@.len(),
            child_at(rows@, None, ordinal as int) == child_at(
                rows@.skip(i as int),
                None,
                ordinal as int,
            ),
        decreases rows@.len() - i,
    {
        assert(rows@.skip(i as int).skip(1) =~= rows@.skip(i + 1));
        if rows[i].parent.is_none() && rows[i].ordinal as usize == ordinal {
            return Some(&rows[i].field);
        }
        i = i + 1;
    }
    None
}

fn count_roots(rows: &Vec<FieldRow>) -> (count: usize)
    ensures
        count == child_count(rows@, None),
{
    let mut count: usize = 0;
    let mut i: usize = 0;
    while i < rows.len()
        invariant
            i <= rows@.len(),
            count <= i,
            count == child_count(rows@.take(i as int), None),
        decreases rows@.len() - i,
    {
        assert(rows@.take(i + 1).drop_last() =~= rows@.take(i as int));
        if rows[i].parent.is_none() {
            count = count + 1;
        }
        i = i + 1;
    }
    assert(rows@.take(i as int) =~= rows@);
    count
}

/// Checks the ordinals of all rows.
pub fn check_field_ordinals(rows: &Vec<FieldRow>) -> (r: Result<(), RuntimeError>)
    requires
        rows@.len() <= u32::MAX,
    ensures
        match r {
            Ok(()) => ordinals_check(rows@) is Ok,
            Err(e) => ordinals_check(rows@) == Err::<(), ErrorView>(e@),
        },
{
    if !are_contiguous(rows, None) {
        let text = crate::text::joined("noncontiguous ", "root field");
        return Err(RuntimeError::Corrupt(crate::text::joined(text.as_str(), " ordinals")));
    }
    let mut i: usize = 0;
    while i < rows.len()
        invariant
            i <= rows@.len(),
            rows@.len() <= u32::MAX,
            ordinals_contiguous(rows@, None),
            forall|k: int|
                0 <= k < i ==> counts_up(
                    child_ordinals(rows@, (#[trigger] rows@[k]).field.field_id),
                ),
        decreases rows@.len() - i,
    {
        let (ordinals, _) = list_children(rows, rows[i].field.field_id);
        proof {
            lemma_children_fit(rows@, rows@[i as int].field.field_id);
        }
        if let Err(e) = check_ordinals(&ordinals, "child field") {
            assert(!counts_up(child_ordinals(rows@, rows@[i as int].field.field_id)));
            return Err(e);
        }
        i = i + 1;
    }
    Ok(())
}

/// The top-level fields that rows make.
pub fn assemble_fields(rows: &Vec<FieldRow>) -> (r: Result<Vec<Field>, RuntimeError>)
    requires
        ordinals_check(rows@) is Ok,
    ensures
        match r {
            Ok(fields) => assembly_check(rows@) is Ok && fields_view(fields@) == children_of(
                rows@,
                None,
            ),
            Err(e) => assembly_check(rows@) == Err::<(), ErrorView>(e@),
        },
{
    let count: usize = count_roots(rows);
    let ghost want = children_of(rows@, None);
    let mut fields: Vec<Field> = Vec::new();
    let mut k: usize = 0;
    proof {
        lemma_fields_view(fields@);
        assert(fields_view(fields@) =~= want.take(0));
        assert(want.take(0) =~= Seq::<FieldView>::empty());
    }
    while k < count
        invariant
            k <= count,
            count == child_count(rows@, None),
            want == children_of(rows@, None),
            want.len() == count,
            ordinals_contiguous(rows@, None),
            fields_view(fields@) == want.take(k as int),
            all_agree(rows@, want.take(k as int), None) is Ok,
        decreases count - k,
    {
        assert(child_at(rows@, None, k as int) is Some);
        proof {
            assert(want.take(k + 1).drop_last() =~= want.take(k as int));
            if all_agree(rows@, want.take(k + 1), None) is Err {
                lemma_agree_stop(rows@, want, None, k + 1);
            }
        }
        match root_at(rows, k) {
            None => {
                return Err(corrupt("nested field is absent from normalized rows"));
            },
            Some(field) => {
                if let Err(e) = validate_tree(rows, field, None) {
                    return Err(e);
                }
                let ghost before = fields@;
                let copy = copy_field(field);
                fields.push(copy);
                assert(fields@.drop_last() =~= before);
                assert(fields_view(fields@) =~= want.take(k + 1));
            },
        }
        k = k + 1;
    }
    assert(want.take(k as int) =~= want);
    match count_tree(&fields, rows.len()) {
        Some(0) => Ok(fields),
        _ => Err(corrupt("orphan normalized schema field")),
    }
}

proof fn lemma_children_fit(rows: Seq<FieldRow>, parent: u32)
    ensures
        child_ordinals(rows, parent).len() <= rows.len(),
    decreases rows.len(),
{
    if rows.len() > 0 {
        lemma_children_fit(rows.drop_last(), parent);
    }
}

/// Reads the rows of all fields.
pub fn read_fields<C: SchemaCodec>(codec: &C, rows: &Vec<Vec<Cell>>) -> (r: Result<
    Vec<FieldRow>,
    RuntimeError,
>)
    ensures
        match r {
            Ok(fields) => reads_as(*codec, rows@, fields@),
            Err(e) => fields_error(*codec, rows@, e),
        },
{
    let mut fields: Vec<FieldRow> = Vec::new();
    let mut i: usize = 0;
    while i < rows.len()
        invariant
            i <= rows@.len(),
            by_field(fields@),
            fields@.len() == i,
            forall|k: int|
                0 <= k < fields@.len() ==> comes_from(
                    *codec,
                    #[trigger] fields@[k],
                    rows@.take(i as int),
                ),
        decreases rows@.len() - i,
    {
        let ghost before = fields@;
        let row = match read_field(codec, &rows[i]) {
            Err(e) => {
                assert(reads_as(*codec, rows@.take(i as int), before));
                assert(fields_fault_at(*codec, rows@, i as int, before, e));
                return Err(e);
            },
            Ok(row) => row,
        };
        assert(holds_field(*codec, cells_view(rows@[i as int]@), row));
        if let Err(e) = insert_field(&mut fields, row) {
            proof {
                assert(reads_as(*codec, rows@.take(i as int), before));
                assert(repeats_field(*codec, cells_view(rows@[i as int]@), before)) by {
                    assert(holds_field(*codec, cells_view(rows@[i as int]@), row));
                }
                assert(fields_fault_at(*codec, rows@, i as int, before, e));
            }
            return Err(e);
        }
        proof {
            let read = rows@.take(i + 1);
            assert(read[i as int] == rows@[i as int]);
            assert(comes_from(*codec, row, read));
            assert forall|k: int| 0 <= k < before.len() implies comes_from(
                *codec,
                #[trigger] before[k],
                read,
            ) by {
                let former = rows@.take(i as int);
                let j = choose|j: int|
                    0 <= j < former.len() && holds_field(
                        *codec,
                        cells_view((#[trigger] former[j])@),
                        before[k],
                    );
                assert(read[j] == former[j]);
            }
            let at = choose|at: int|
                0 <= at <= before.len() && fields@ == #[trigger] before.insert(at, row);
            assert forall|k: int| 0 <= k < fields@.len() implies comes_from(
                *codec,
                #[trigger] fields@[k],
                read,
            ) by {
                if k < at {
                    assert(fields@[k] == before[k]);
                } else if k > at {
                    assert(fields@[k] == before[k - 1]);
                }
            }
        }
        i = i + 1;
    }
    assert(rows@.take(i as int) =~= rows@);
    Ok(fields)
}

/// The rows read as fields, in the order of the fields.
pub open spec fn reads_as<C: SchemaCodec>(
    codec: C,
    rows: Seq<Vec<Cell>>,
    fields: Seq<FieldRow>,
) -> bool {
    &&& by_field(fields)
    &&& fields.len() == rows.len()
    &&& forall|k: int| 0 <= k < fields.len() ==> comes_from(codec, #[trigger] fields[k], rows)
}

/// The rows before `i` read as fields, and this one does not: it holds no field, or
/// one that a row before it holds.
pub open spec fn fields_fault_at<C: SchemaCodec>(
    codec: C,
    rows: Seq<Vec<Cell>>,
    i: int,
    before: Seq<FieldRow>,
    e: RuntimeError,
) -> bool {
    &&& reads_as(codec, rows.take(i), before)
    &&& {
        ||| field_fault(codec, cells_view(rows[i]@), e)
        ||| {
            &&& repeats_field(codec, cells_view(rows[i]@), before)
            &&& e@ == ErrorView::Corrupt("duplicate normalized field ID"@)
        }
    }
}

/// A row holds a field that there is.
pub open spec fn repeats_field<C: SchemaCodec>(
    codec: C,
    row: Seq<CellView>,
    fields: Seq<FieldRow>,
) -> bool {
    exists|field: FieldRow| #[trigger]
        holds_field(codec, row, field) && has_field(fields, field.field.field_id)
}

/// The first of the rows that keep them from being read as fields.
pub open spec fn fields_error<C: SchemaCodec>(
    codec: C,
    rows: Seq<Vec<Cell>>,
    e: RuntimeError,
) -> bool {
    exists|i: int, before: Seq<FieldRow>|
        0 <= i < rows.len() && #[trigger] fields_fault_at(codec, rows, i, before, e)
}

/// Whether a field was read from one of the rows.
pub open spec fn comes_from<C: SchemaCodec>(
    codec: C,
    field: FieldRow,
    rows: Seq<Vec<Cell>>,
) -> bool {
    exists|i: int|
        0 <= i < rows.len() && holds_field(codec, cells_view((#[trigger] rows[i])@), field)
}

/// The parent and the doc text of a schema.
#[derive(Debug)]
pub struct SchemaHeader {
    pub parent_schema_id: Option<u32>,
    pub doc: Option<String>,
}

/// What keeps the row of a schema from being read.
pub open spec fn header_error(rows: Seq<Vec<Cell>>, e: ErrorView) -> bool {
    if rows.len() != 1 {
        e == ErrorView::Corrupt("selected schema is missing"@)
    } else if rows[0]@.len() != 2 {
        e == ErrorView::Corrupt("invalid schema header row"@)
    } else if !(rows[0]@[0]@ is Null) && small_of(rows[0]@[0]@) is None {
        e == invalid_named("parent schema ID"@)
    } else {
        &&& !(rows[0]@[1]@ is Null) && !(rows[0]@[1]@ is Text)
        &&& e == invalid_named("schema doc"@)
    }
}

/// Whether the row of a schema can be read.
pub open spec fn header_ok(rows: Seq<Vec<Cell>>) -> bool {
    &&& rows.len() == 1
    &&& rows[0]@.len() == 2
    &&& rows[0]@[0]@ is Null || small_of(rows[0]@[0]@) is Some
    &&& rows[0]@[1]@ is Null || rows[0]@[1]@ is Text
}

/// Reads the row of a schema, of which there has to be one.
pub fn read_header(rows: &Vec<Vec<Cell>>) -> (r: Result<SchemaHeader, RuntimeError>)
    ensures
        match r {
            Ok(header) => {
                &&& header_ok(rows@)
                &&& is_optional_number(rows@[0]@[0]@, header.parent_schema_id)
                &&& is_optional_text(rows@[0]@[1]@, text_view(header.doc))
            },
            Err(e) => header_error(rows@, e@),
        },
{
    if rows.len() != 1 {
        return Err(corrupt("selected schema is missing"));
    }
    let row = &rows[0];
    if row.len() != 2 {
        return Err(corrupt("invalid schema header row"));
    }
    let parent_schema_id: Option<u32> = optional_u32(&row[0], "parent schema ID")?;
    let doc = optional_text(&row[1], "schema doc")?;
    Ok(SchemaHeader { parent_schema_id, doc })
}

/// Whether rows list the identifier fields in their order.
pub open spec fn identifiers_ok(rows: Seq<Vec<Cell>>) -> bool {
    forall|i: int|
        0 <= i < rows.len() ==> {
            let row = #[trigger] rows[i];
            &&& row@.len() == 2
            &&& small_of(row@[0]@) is Some
            &&& small_of(row@[1]@) == Some(i as u32)
        }
}

/// Whether each row has two columns, and an ordinal in the second.
pub open spec fn ordinals_read(rows: Seq<Vec<Cell>>) -> bool {
    forall|i: int|
        0 <= i < rows.len() ==> (#[trigger] rows[i])@.len() == 2 && small_of(rows[i]@[1]@) is Some
}

/// The ordinals before the row at `i` are read, and its own is not.
pub open spec fn ordinal_fault_at(rows: Seq<Vec<Cell>>, i: int, e: ErrorView) -> bool {
    &&& ordinals_read(rows.take(i))
    &&& if rows[i]@.len() != 2 {
        e == ErrorView::Corrupt("invalid identifier row"@)
    } else {
        small_of(rows[i]@[1]@) is None && e == invalid_named("identifier ordinal"@)
    }
}

/// The identifiers before the row at `i` are read, and its own is not.
pub open spec fn identifier_fault_at(rows: Seq<Vec<Cell>>, i: int, e: ErrorView) -> bool {
    &&& small_of(rows[i]@[0]@) is None
    &&& e == invalid_named("identifier field ID"@)
    &&& forall|k: int| 0 <= k < i ==> small_of((#[trigger] rows[k])@[0]@) is Some
}

/// Whether the ordinal of a row is its place.
pub open spec fn in_place(rows: Seq<Vec<Cell>>) -> bool {
    forall|i: int|
        0 <= i < rows.len() ==> small_of((#[trigger] rows[i])@[1]@) == Some(i as u32)
}

/// What bad rows of identifier fields are answered: all ordinals are read first,
/// then compared with their places, then the identifiers are read.
pub open spec fn identifiers_error(rows: Seq<Vec<Cell>>, e: ErrorView) -> bool {
    if !ordinals_read(rows) {
        exists|i: int| 0 <= i < rows.len() && #[trigger] ordinal_fault_at(rows, i, e)
    } else if !in_place(rows) {
        e == noncontiguous("identifier"@)
    } else {
        exists|i: int| 0 <= i < rows.len() && #[trigger] identifier_fault_at(rows, i, e)
    }
}

/// Reads the identifier fields.
pub fn read_identifiers(rows: &Vec<Vec<Cell>>) -> (r: Result<Vec<u32>, RuntimeError>)
    requires
        rows@.len() <= u32::MAX,
    ensures
        match r {
            Ok(ids) => {
                &&& identifiers_ok(rows@)
                &&& ids@.len() == rows@.len()
                &&& forall|i: int|
                    0 <= i < ids@.len() ==> small_of(rows@[i]@[0]@) == Some(#[trigger] ids@[i])
            },
            Err(e) => !identifiers_ok(rows@) && identifiers_error(rows@, e@),
        },
{
    let mut ordinals: Vec<u32> = Vec::new();
    let mut i: usize = 0;
    while i < rows.len()
        invariant
            i <= rows@.len(),
            ordinals@.len() == i,
            forall|k: int|
                0 <= k < i ==> (#[trigger] rows@[k])@.len() == 2 && small_of(rows@[k]@[1]@) == Some(
                    ordinals@[k],
                ),
        decreases rows@.len() - i,
    {
        let row = &rows[i];
        proof {
            let seen = rows@.take(i as int);
            assert forall|k: int| 0 <= k < seen.len() implies (#[trigger] seen[k])@.len() == 2
                && small_of(seen[k]@[1]@) is Some by {
                assert(seen[k] == rows@[k]);
            }
        }
        if row.len() != 2 {
            assert(rows@[i as int]@.len() != 2);
            let e = corrupt("invalid identifier row");
            assert(ordinal_fault_at(rows@, i as int, e@));
            return Err(e);
        }
        match required_u32(&row[1], "identifier ordinal") {
            Err(e) => {
                assert(small_of(rows@[i as int]@[1]@) is None);
                assert(ordinal_fault_at(rows@, i as int, e@));
                return Err(e);
            },
            Ok(ordinal) => {
                ordinals.push(ordinal);
            },
        }
        i = i + 1;
    }
    if let Err(e) = check_ordinals(&ordinals, "identifier") {
        proof {
            assert(ordinals_read(rows@));
            if in_place(rows@) {
                assert forall|k: int| 0 <= k < ordinals@.len() implies #[trigger] ordinals@[k]
                    == k by {
                    assert(small_of(rows@[k]@[1]@) == Some(k as u32));
                }
                assert(counts_up(ordinals@));
            }
            if identifiers_ok(rows@) {
                assert(in_place(rows@));
            }
        }
        return Err(e);
    }
    let mut ids: Vec<u32> = Vec::new();
    let mut k: usize = 0;
    while k < rows.len()
        invariant
            k <= rows@.len(),
            rows@.len() <= u32::MAX,
            ordinals@.len() == rows@.len(),
            counts_up(ordinals@),
            ids@.len() == k,
            forall|j: int|
                0 <= j < rows@.len() ==> (#[trigger] rows@[j])@.len() == 2 && small_of(
                    rows@[j]@[1]@,
                ) == Some(ordinals@[j]),
            forall|j: int|
                0 <= j < k ==> small_of(rows@[j]@[0]@) == Some(#[trigger] ids@[j]),
        decreases rows@.len() - k,
    {
        let row = &rows[k];
        match required_u32(&row[0], "identifier field ID") {
            Err(e) => {
                proof {
                    assert(small_of(rows@[k as int]@[0]@) is None);
                    assert(ordinals_read(rows@));
                    assert forall|j: int| 0 <= j < rows@.len() implies small_of(
                        (#[trigger] rows@[j])@[1]@,
                    ) == Some(j as u32) by {
                        assert(ordinals@[j] == j);
                    }
                    assert forall|j: int| 0 <= j < k implies small_of(
                        (#[trigger] rows@[j])@[0]@,
                    ) is Some by {
                        assert(small_of(rows@[j]@[0]@) == Some(ids@[j]));
                    }
                    assert(identifier_fault_at(rows@, k as int, e@));
                }
                return Err(e);
            },
            Ok(id) => {
                ids.push(id);
            },
        }
        k = k + 1;
    }
    assert forall|j: int| 0 <= j < rows@.len() implies {
        let row = #[trigger] rows@[j];
        &&& row@.len() == 2
        &&& small_of(row@[0]@) is Some
        &&& small_of(row@[1]@) == Some(j as u32)
    } by {
        assert(ordinals@[j] == j);
        assert(small_of(rows@[j]@[0]@) == Some(ids@[j]));
    }
    Ok(ids)
}

/// The protocol refused a schema.
pub open spec fn schema_refused<C: SchemaCodec>(codec: C, schema: Schema, e: RuntimeError) -> bool {
    call_ensures(C::validate_schema, (&codec, &schema), Err::<(), RuntimeError>(e))
}

/// Whether a codec accepts a schema.
pub open spec fn schema_accepted<C: SchemaCodec>(codec: C, schema: Schema) -> bool {
    exists|verdict: Result<(), RuntimeError>|
        verdict is Ok && #[trigger] call_ensures(C::validate_schema, (&codec, &schema), verdict)
}

/// Whether a schema is made of its rows.
pub open spec fn rebuilt<C: SchemaCodec>(
    codec: C,
    schema: Schema,
    header: Seq<Vec<Cell>>,
    fields: Seq<Vec<Cell>>,
    identifiers: Seq<Vec<Cell>>,
) -> bool {
    &&& header.len() == 1
    &&& header[0]@.len() == 2
    &&& is_optional_number(header[0]@[0]@, schema.parent_schema_id)
    &&& is_optional_text(header[0]@[1]@, text_view(schema.doc))
    &&& identifiers_ok(identifiers)
    &&& schema.identifier_field_ids@.len() == identifiers.len()
    &&& forall|i: int|
        0 <= i < identifiers.len() ==> small_of(identifiers[i]@[0]@) == Some(
            #[trigger] schema.identifier_field_ids@[i],
        )
    &&& exists|rows: Seq<FieldRow>|
        {
            &&& #[trigger] reads_as(codec, fields, rows)
            &&& ordinals_check(rows) is Ok
            &&& assembly_check(rows) is Ok
            &&& fields_view(schema.fields@) == children_of(rows, None)
        }
}

/// The rows hold fields, and these, or the identifier fields, do not go together.
pub open spec fn rows_disagree<C: SchemaCodec>(
    codec: C,
    fields: Seq<Vec<Cell>>,
    identifiers: Seq<Vec<Cell>>,
    e: ErrorView,
) -> bool {
    exists|rows: Seq<FieldRow>| #[trigger]
        reads_as(codec, fields, rows) && match ordinals_check(rows) {
            Err(error) => e == error,
            Ok(()) => if !identifiers_ok(identifiers) {
                identifiers_error(identifiers, e)
            } else {
                assembly_check(rows) == Err::<(), ErrorView>(e)
            },
        }
}

/// The protocol refused the schema that the rows make.
pub open spec fn rebuilt_refused<C: SchemaCodec>(
    codec: C,
    schema_id: u32,
    header: Seq<Vec<Cell>>,
    fields: Seq<Vec<Cell>>,
    identifiers: Seq<Vec<Cell>>,
    e: RuntimeError,
) -> bool {
    exists|schema: Schema|
        {
            &&& schema.schema_id == schema_id
            &&& rebuilt(codec, schema, header, fields, identifiers)
            &&& #[trigger] schema_refused(codec, schema, e)
        }
}

/// Rebuilds a schema from its rows.
pub fn load_schema<C: SchemaCodec>(
    codec: &C,
    schema_id: u32,
    header: &Vec<Vec<Cell>>,
    fields: &Vec<Vec<Cell>>,
    identifiers: &Vec<Vec<Cell>>,
) -> (r: Result<Schema, RuntimeError>)
    requires
        fields@.len() <= 4096,
        identifiers@.len() <= 4096,
    ensures
        match r {
            Ok(schema) => {
                &&& schema_id != 0
                &&& schema.schema_id == schema_id
                &&& rebuilt(*codec, schema, header@, fields@, identifiers@)
                &&& schema_accepted(*codec, schema)
            },
            Err(e) => if schema_id == 0 {
                e@ == ErrorView::Corrupt("schema ID must be positive"@)
            } else {
                ||| !header_ok(header@) && header_error(header@, e@)
                ||| header_ok(header@) && fields_error(*codec, fields@, e)
                ||| header_ok(header@) && rows_disagree(*codec, fields@, identifiers@, e@)
                ||| rebuilt_refused(*codec, schema_id, header@, fields@, identifiers@, e)
            },
        },
{
    if schema_id == 0 {
        return Err(corrupt("schema ID must be positive"));
    }
    let head = read_header(header)?;
    let rows = read_fields(codec, fields)?;
    proof {
        assert(reads_as(*codec, fields@, rows@));
    }
    check_field_ordinals(&rows)?;
    let identifier_field_ids = read_identifiers(identifiers)?;
    let assembled = assemble_fields(&rows)?;
    let schema = Schema {
        schema_id,
        parent_schema_id: head.parent_schema_id,
        doc: head.doc,
        fields: assembled,
        identifier_field_ids,
    };
    assert(rebuilt(*codec, schema, header@, fields@, identifiers@));
    let verdict = codec.validate_schema(&schema);
    if let Err(e) = verdict {
        assert(schema_refused(*codec, schema, e));
        return Err(e);
    }
    assert(schema_accepted(*codec, schema));
    Ok(schema)
}

/// What a schema takes of the budget: four times its serialized length and 1024.
pub fn schema_charge(serialized: usize) -> (charge: usize)
    ensures
        charge == if serialized * 4 + 1024 > usize::MAX {
            usize::MAX as int
        } else {
            serialized * 4 + 1024
        },
{
    if serialized > (usize::MAX - 1024) / 4 {
        usize::MAX
    } else {
        serialized * 4 + 1024
    }
}

} // verus!

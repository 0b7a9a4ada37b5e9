//! What a reader makes of the rows of a schema.
use crate::cells::{cells_view, Cell, CellView};
use crate::error::RuntimeError;
use crate::laws::paged_listings::value_at;
use crate::reader_schema::{
    comes_from, holds_field, load_schema, read_field, reads_as, rebuilt, SchemaCodec,
};
use crate::schema::{fields_view, lemma_fields_view, text_view, Field, LogicalType, Schema};
use crate::schema_rows::{child_at, child_count, children_of};
use crate::tables::FieldRow;
use vstd::prelude::*;

verus! {

pub open spec fn number_or_null(n: Option<u32>) -> CellView {
    match n {
        None => CellView::Null,
        Some(n) => CellView::Integer(n as i64),
    }
}

pub open spec fn text_or_null(text: Option<String>) -> CellView {
    match text {
        None => CellView::Null,
        Some(text) => CellView::Text(text@),
    }
}

/// The row of a field, with its type as a text.
pub open spec fn field_row(row: FieldRow, kind: Seq<char>) -> Seq<CellView> {
    seq![
        CellView::Integer(row.field.field_id as i64),
        number_or_null(row.parent),
        CellView::Text(row.field.name@),
        CellView::Integer(row.ordinal as i64),
        CellView::Integer(
            if row.field.required {
                1
            } else {
                0
            },
        ),
        CellView::Text(kind),
        text_or_null(row.field.doc),
        text_or_null(row.field.initial_default),
        text_or_null(row.field.write_default),
    ]
}

/// A field is read as it was stored: under its parent, at its place, with its name,
/// its defaults and what the protocol reads as its type.
pub proof fn lemma_field_is_read<C: SchemaCodec>(
    codec: C,
    stored: FieldRow,
    kind: Seq<char>,
    row: Vec<Cell>,
    r: Result<FieldRow, RuntimeError>,
)
    requires
        cells_view(row@) == field_row(stored, kind),
        call_ensures(read_field::<C>, (&codec, &row), r),
    ensures
        r matches Ok(read) ==> {
            &&& read.parent == stored.parent
            &&& read.ordinal == stored.ordinal
            &&& read.field.field_id == stored.field.field_id
            &&& read.field.name@ == stored.field.name@
            &&& read.field.required == stored.field.required
            &&& text_or_null(read.field.doc) == text_or_null(stored.field.doc)
            &&& text_or_null(read.field.initial_default) == text_or_null(
                stored.field.initial_default,
            )
            &&& text_or_null(read.field.write_default) == text_or_null(stored.field.write_default)
            &&& exists|text: String|
                text@ == kind && #[trigger] call_ensures(
                    C::parse_type,
                    (&codec, &text),
                    Ok::<LogicalType, RuntimeError>(read.field.field_type),
                )
        },
{
    if let Ok(read) = r {
        let cells = cells_view(row@);
        assert(holds_field(codec, cells, read));
        assert(cells[5] == CellView::Text(kind));
        let text = choose|text: String|
            cells[5] == CellView::Text(text@) && #[trigger] call_ensures(
                C::parse_type,
                (&codec, &text),
                Ok::<LogicalType, RuntimeError>(read.field.field_type),
            );
        assert(text@ == kind);
    }
}

/// The row is that of a top-level field of the schema, at its place.
pub open spec fn is_row_of_field(row: Vec<Cell>, field: Field, place: int) -> bool {
    &&& row@.len() == 9
    &&& value_at(row, 0) == CellView::Integer(field.field_id as i64)
    &&& value_at(row, 1) is Null
    &&& value_at(row, 2) == CellView::Text(field.name@)
    &&& value_at(row, 3) == CellView::Integer(place as i64)
    &&& value_at(row, 4) == CellView::Integer(
        if field.required {
            1
        } else {
            0
        },
    )
    &&& value_at(row, 6) == text_or_null(field.doc)
    &&& value_at(row, 7) == text_or_null(field.initial_default)
    &&& value_at(row, 8) == text_or_null(field.write_default)
}

proof fn lemma_child(rows: Seq<FieldRow>, ordinal: int) -> (i: int)
    requires
        child_at(rows, None, ordinal) is Some,
    ensures
        0 <= i < rows.len(),
        rows[i].parent is None,
        rows[i].ordinal == ordinal,
        rows[i].field == child_at(rows, None, ordinal)->0,
    decreases rows.len(),
{
    if rows[0].parent is None && rows[0].ordinal == ordinal {
        0
    } else {
        let i = lemma_child(rows.skip(1), ordinal);
        assert(rows.skip(1)[i] == rows[i + 1]);
        i + 1
    }
}

/// A schema that is loaded is the one that was asked for, with the parent, the text
/// and the identifier fields of its rows; each of its top-level fields is that of the
/// row without a parent that has its place.
pub proof fn lemma_schema_is_loaded<C: SchemaCodec>(
    codec: C,
    schema_id: u32,
    header: Vec<Vec<Cell>>,
    fields: Vec<Vec<Cell>>,
    identifiers: Vec<Vec<Cell>>,
    r: Result<Schema, RuntimeError>,
)
    requires
        fields@.len() <= 4096,
        identifiers@.len() <= 4096,
        call_ensures(
            load_schema::<C>,
            (&codec, schema_id, &header, &fields, &identifiers),
            r,
        ),
    ensures
        schema_id == 0 ==> r is Err,
        header@.len() != 1 ==> r is Err,
        r matches Ok(schema) ==> {
            &&& schema.schema_id == schema_id
            &&& header@[0]@.len() == 2
            &&& value_at(header@[0], 0) == number_or_null(schema.parent_schema_id)
            &&& value_at(header@[0], 1) == text_or_null(schema.doc)
            &&& schema.identifier_field_ids@.len() == identifiers@.len()
            &&& forall|i: int|
                0 <= i < identifiers@.len() ==> value_at(#[trigger] identifiers@[i], 0)
                    == CellView::Integer(schema.identifier_field_ids@[i] as i64) && value_at(
                    identifiers@[i],
                    1,
                ) == CellView::Integer(i as i64)
            &&& forall|k: int|
                0 <= k < schema.fields@.len() ==> exists|j: int|
                    0 <= j < fields@.len() && is_row_of_field(
                        #[trigger] fields@[j],
                        #[trigger] schema.fields@[k],
                        k,
                    )
        },
{
    if let Ok(schema) = r {
        assert(rebuilt(codec, schema, header@, fields@, identifiers@));
        assert forall|i: int| 0 <= i < identifiers@.len() implies value_at(
            #[trigger] identifiers@[i],
            0,
        ) == CellView::Integer(schema.identifier_field_ids@[i] as i64) && value_at(
            identifiers@[i],
            1,
        ) == CellView::Integer(i as i64) by {
            assert(crate::cells::small_of(identifiers@[i]@[0]@) == Some(
                schema.identifier_field_ids@[i],
            ));
            assert(crate::cells::small_of(identifiers@[i]@[1]@) == Some(i as u32));
        }
        let rows = choose|rows: Seq<FieldRow>|
            {
                &&& #[trigger] reads_as(codec, fields@, rows)
                &&& crate::reader_schema::ordinals_check(rows) is Ok
                &&& crate::reader_schema::assembly_check(rows) is Ok
                &&& fields_view(schema.fields@) == children_of(rows, None)
            };
        lemma_fields_view(schema.fields@);
        assert forall|k: int| 0 <= k < schema.fields@.len() implies exists|j: int|
            0 <= j < fields@.len() && is_row_of_field(
                #[trigger] fields@[j],
                #[trigger] schema.fields@[k],
                k,
            ) by {
            let field = schema.fields@[k];
            assert(fields_view(schema.fields@)[k] == crate::schema::field_view(&field));
            assert(k < child_count(rows, None));
            assert(child_at(rows, None, k) is Some);
            let i = lemma_child(rows, k);
            let stored = rows[i];
            assert(children_of(rows, None)[k] == crate::schema::field_view(&stored.field));
            assert(comes_from(codec, stored, fields@));
            let j = choose|j: int|
                0 <= j < fields@.len() && holds_field(
                    codec,
                    cells_view((#[trigger] fields@[j])@),
                    stored,
                );
            let cells = cells_view(fields@[j]@);
            assert(cells.len() == fields@[j]@.len());
            assert(cells[0] == fields@[j]@[0]@ && cells[1] == fields@[j]@[1]@ && cells[2]
                == fields@[j]@[2]@ && cells[3] == fields@[j]@[3]@ && cells[4] == fields@[j]@[4]@
                && cells[6] == fields@[j]@[6]@ && cells[7] == fields@[j]@[7]@ && cells[8]
                == fields@[j]@[8]@);
            assert(text_view(field.doc) == text_view(stored.field.doc));
            assert(text_view(field.initial_default) == text_view(stored.field.initial_default));
            assert(text_view(field.write_default) == text_view(stored.field.write_default));
            assert(is_row_of_field(fields@[j], field, k));
        }
    }
}

} // verus!

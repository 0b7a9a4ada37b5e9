//! What the rows of an image show a transaction.
use crate::catalog::{Catalog, PropertyRow, RefRow, RefType};
use crate::error::{corrupt, ErrorView, RuntimeError};
use crate::genesis::{copy_numbers, schema_stored};
use crate::image::{has_schema, lineage_rows, small, snapshot_rows};
use crate::schema::{
    all_field_ids, copy_field, copy_text, fields_view, lemma_fields_view, text_view, Field,
    Schema, SchemaView,
};
use crate::schema_rows::{
    are_contiguous, child_at, child_count, children_of, contiguity_error, count_children,
    find_child, ordinals_contiguous,
};
use crate::stored_schema::{lemma_stored_schema_is_valid, without_mappings};
use crate::tables::{FieldRow, ImageRows, RefRecord, SchemaRecord};
use vstd::prelude::*;

verus! {

pub open spec fn catalog_refs(catalog: Seq<RefRow>, refs: Seq<RefRecord>) -> bool {
    &&& catalog.len() == refs.len()
    &&& forall|i: int|
        0 <= i < refs.len() ==> {
            &&& (#[trigger] catalog[i]).name@ == refs[i].name@
            &&& catalog[i].ref_type.spec_text() == refs[i].ref_type@
            &&& catalog[i].snapshot_id == refs[i].snapshot_id
        }
}

/// The catalog shows the rows of the image.
pub open spec fn catalog_of(catalog: Catalog, rows: ImageRows) -> bool {
    &&& catalog_refs(catalog.refs@, rows.refs@)
    &&& catalog.snapshots@ == snapshot_rows(rows.snapshots@)
    &&& forall|id: u32| #[trigger]
        catalog.schema_ids@.contains(id) <==> has_schema(rows.schemas@, id as i64)
}

/// Whether a ref is stored with a type that there is.
pub open spec fn typed(r: RefRecord) -> bool {
    r.ref_type@ == RefType::Branch.spec_text() || r.ref_type@ == RefType::Tag.spec_text()
}

pub open spec fn all_typed(refs: Seq<RefRecord>) -> bool {
    forall|i: int| 0 <= i < refs.len() ==> typed(#[trigger] refs[i])
}

/// The refs of an image.
pub fn refs_of(refs: &Vec<RefRecord>) -> (r: Result<Vec<RefRow>, RuntimeError>)
    ensures
        match r {
            Ok(shown) => all_typed(refs@) && catalog_refs(shown@, refs@),
            Err(e) => !all_typed(refs@) && e@ == ErrorView::Corrupt("invalid ref type"@),
        },
{
    let mut shown: Vec<RefRow> = Vec::new();
    let mut i: usize = 0;
    while i < refs.len()
        invariant
            i <= refs@.len(),
            shown@.len() == i,
            forall|k: int|
                0 <= k < i ==> {
                    &&& (#[trigger] shown@[k]).name@ == refs@[k].name@
                    &&& shown@[k].ref_type.spec_text() == refs@[k].ref_type@
                    &&& shown@[k].snapshot_id == refs@[k].snapshot_id
                },
            forall|k: int| 0 <= k < i ==> typed(#[trigger] refs@[k]),
        decreases refs@.len() - i,
    {
        match RefType::from_text(&refs[i].ref_type) {
            Err(e) => {
                assert(!typed(refs@[i as int]));
                return Err(e);
            },
            Ok(ref_type) => {
                shown.push(
                    RefRow {
                        name: refs[i].name.clone(),
                        ref_type,
                        snapshot_id: refs[i].snapshot_id,
                    },
                );
            },
        }
        i = i + 1;
    }
    Ok(shown)
}

/// What is wrong with a stored schema that cannot be read.
pub open spec fn readable(record: SchemaRecord) -> Result<(), ErrorView> {
    if !small(record.schema_id) {
        Err(ErrorView::Corrupt("invalid schema ID"@))
    } else if !ordinals_contiguous(record.fields@, None) {
        Err(contiguity_error())
    } else if record.parent_schema_id matches Some(parent) && !small(parent) {
        Err(ErrorView::Corrupt("invalid parent schema ID"@))
    } else {
        Ok(())
    }
}

/// The schema that stored rows spell out.
pub open spec fn schema_read(record: SchemaRecord) -> SchemaView {
    SchemaView {
        schema_id: record.schema_id as u32,
        parent_schema_id: match record.parent_schema_id {
            Some(parent) => Some(parent as u32),
            None => None,
        },
        doc: text_view(record.doc),
        fields: children_of(record.fields@, None),
        identifier_field_ids: record.identifiers@,
    }
}

fn root_fields(rows: &Vec<FieldRow>) -> (fields: Vec<Field>)
    requires
        ordinals_contiguous(rows@, None),
    ensures
        fields_view(fields@) == children_of(rows@, None),
{
    let count: usize = count_children(rows, None);
    let ghost want = children_of(rows@, None);
    let mut fields: Vec<Field> = Vec::new();
    let mut k: usize = 0;
    proof {
        lemma_fields_view(fields@);
        assert(fields_view(fields@) =~= want.take(0));
    }
    while k < count
        invariant
            k <= count,
            count == child_count(rows@, None),
            want == children_of(rows@, None),
            want.len() == count,
            ordinals_contiguous(rows@, None),
            fields_view(fields@) == want.take(k as int),
        decreases count - k,
    {
        assert(child_at(rows@, None, k as int) is Some);
        assert(want.take(k + 1).drop_last() =~= want.take(k as int));
        if let Some(field) = find_child(rows, None, k) {
            let ghost before = fields@;
            let copy = copy_field(field);
            fields.push(copy);
            assert(fields@.drop_last() =~= before);
            assert(fields_view(fields@) =~= want.take(k + 1));
        }
        k = k + 1;
    }
    assert(want.take(k as int) =~= want);
    fields
}

/// Reads a schema from its rows, its top-level fields by their ordinals.
pub fn schema_of(record: &SchemaRecord) -> (r: Result<Schema, RuntimeError>)
    ensures
        match r {
            Ok(schema) => readable(*record) is Ok && schema@ == schema_read(*record),
            Err(e) => readable(*record) == Err::<(), ErrorView>(e@),
        },
{
    if record.schema_id < 0 || record.schema_id > u32::MAX as i64 {
        return Err(corrupt("invalid schema ID"));
    }
    if !are_contiguous(&record.fields, None) {
        return Err(corrupt("field ordinals are not unique and contiguous"));
    }
    let parent_schema_id = match record.parent_schema_id {
        None => None,
        Some(parent) => {
            if parent < 0 || parent > u32::MAX as i64 {
                return Err(corrupt("invalid parent schema ID"));
            }
            Some(parent as u32)
        },
    };
    Ok(
        Schema {
            schema_id: record.schema_id as u32,
            parent_schema_id,
            doc: copy_text(&record.doc),
            fields: root_fields(&record.fields),
            identifier_field_ids: copy_numbers(&record.identifiers),
        },
    )
}

/// A schema that is stored is read back as it was. Its fields have different
/// identifiers, and none is a mapping.
pub proof fn lemma_schema_is_read_back(record: SchemaRecord, schema: Schema, version: i64)
    requires
        schema_stored(record, schema, version),
        all_field_ids(fields_view(schema.fields@)).no_duplicates(),
        without_mappings(fields_view(schema.fields@)),
    ensures
        readable(record) is Ok,
        schema_read(record) == schema@,
{
    lemma_stored_schema_is_valid(record.fields@, fields_view(schema.fields@));
}

/// The first schema with that identifier.
pub open spec fn schema_record(schemas: Seq<SchemaRecord>, id: i64) -> Option<SchemaRecord>
    decreases schemas.len(),
{
    if schemas.len() == 0 {
        None
    } else if schemas[0].schema_id == id {
        Some(schemas[0])
    } else {
        schema_record(schemas.skip(1), id)
    }
}

fn find_schema<'a>(schemas: &'a Vec<SchemaRecord>, id: i64) -> (found: Option<&'a SchemaRecord>)
    ensures
        match found {
            Some(record) => schema_record(schemas@, id) == Some(*record),
            None => schema_record(schemas@, id) is None,
        },
{
    assert(schemas@.skip(0) =~= schemas@);
    let mut i: usize = 0;
    while i < schemas.len()
        invariant
            i <= schemas@.len(),
            schema_record(schemas@, id) == schema_record(schemas@.skip(i as int), id),
        decreases schemas@.len() - i,
    {
        assert(schemas@.skip(i as int).skip(1) =~= schemas@.skip(i + 1));
        if schemas[i].schema_id == id {
            return Some(&schemas[i]);
        }
        i = i + 1;
    }
    None
}

pub open spec fn current_check(rows: ImageRows) -> Result<SchemaView, ErrorView> {
    match schema_record(rows.schemas@, rows.meta.current_schema_id) {
        None => Err(ErrorView::Corrupt("metadata defaults do not exist"@)),
        Some(record) => match readable(record) {
            Err(e) => Err(e),
            Ok(()) => Ok(schema_read(record)),
        },
    }
}

/// The current schema of an image.
pub fn current_schema(rows: &ImageRows) -> (r: Result<Schema, RuntimeError>)
    ensures
        match r {
            Ok(schema) => current_check(*rows) == Ok::<SchemaView, ErrorView>(schema@),
            Err(e) => current_check(*rows) == Err::<SchemaView, ErrorView>(e@),
        },
{
    match find_schema(&rows.schemas, rows.meta.current_schema_id) {
        None => Err(corrupt("metadata defaults do not exist")),
        Some(record) => schema_of(record),
    }
}

pub open spec fn all_small(schemas: Seq<SchemaRecord>) -> bool {
    forall|i: int| 0 <= i < schemas.len() ==> small((#[trigger] schemas[i]).schema_id)
}

fn schema_ids_of(schemas: &Vec<SchemaRecord>) -> (r: Result<Vec<u32>, RuntimeError>)
    ensures
        match r {
            Ok(ids) => {
                &&& all_small(schemas@)
                &&& ids@.len() == schemas@.len()
                &&& forall|i: int|
                    0 <= i < schemas@.len() ==> #[trigger] ids@[i] == schemas@[i].schema_id
            },
            Err(e) => !all_small(schemas@) && e@ == ErrorView::Corrupt("invalid schema ID"@),
        },
{
    let mut ids: Vec<u32> = Vec::new();
    let mut i: usize = 0;
    while i < schemas.len()
        invariant
            i <= schemas@.len(),
            ids@.len() == i,
            forall|k: int| 0 <= k < i ==> #[trigger] ids@[k] == schemas@[k].schema_id,
            forall|k: int| 0 <= k < i ==> small((#[trigger] schemas@[k]).schema_id),
        decreases schemas@.len() - i,
    {
        let id: i64 = schemas[i].schema_id;
        if id < 0 || id > u32::MAX as i64 {
            assert(!small(schemas@[i as int].schema_id));
            return Err(corrupt("invalid schema ID"));
        }
        ids.push(id as u32);
        i = i + 1;
    }
    Ok(ids)
}

/// What is wrong with rows that a catalog cannot show.
pub open spec fn catalog_check(rows: ImageRows) -> Result<(), ErrorView> {
    if !all_typed(rows.refs@) {
        Err(ErrorView::Corrupt("invalid ref type"@))
    } else if !all_small(rows.schemas@) {
        Err(ErrorView::Corrupt("invalid schema ID"@))
    } else if current_check(rows) is Err {
        Err(current_check(rows)->Err_0)
    } else if !small(rows.meta.default_partition_spec_id) {
        Err(ErrorView::Corrupt("invalid partition spec ID"@))
    } else if !small(rows.meta.default_sort_order_id) {
        Err(ErrorView::Corrupt("invalid sort order ID"@))
    } else {
        Ok(())
    }
}

/// The catalog of an image, with the properties and the field identifiers of the
/// table.
pub fn catalog_from(rows: &ImageRows, properties: Vec<PropertyRow>, field_ids: Vec<u32>) -> (r:
    Result<Catalog, RuntimeError>)
    ensures
        match r {
            Ok(catalog) => {
                &&& catalog_check(*rows) is Ok
                &&& catalog_of(catalog, *rows)
                &&& current_check(*rows) == Ok::<SchemaView, ErrorView>(catalog.current_schema@)
                &&& catalog.properties == properties
                &&& catalog.field_ids == field_ids
                &&& catalog.default_partition_spec_id == rows.meta.default_partition_spec_id
                &&& catalog.default_sort_order_id == rows.meta.default_sort_order_id
            },
            Err(e) => catalog_check(*rows) == Err::<(), ErrorView>(e@),
        },
{
    let refs = match refs_of(&rows.refs) {
        Err(e) => {
            return Err(e);
        },
        Ok(refs) => refs,
    };
    let schema_ids = match schema_ids_of(&rows.schemas) {
        Err(e) => {
            return Err(e);
        },
        Ok(ids) => ids,
    };
    let current_schema = match current_schema(rows) {
        Err(e) => {
            return Err(e);
        },
        Ok(schema) => schema,
    };
    let spec: i64 = rows.meta.default_partition_spec_id;
    if spec < 0 || spec > u32::MAX as i64 {
        return Err(corrupt("invalid partition spec ID"));
    }
    let order: i64 = rows.meta.default_sort_order_id;
    if order < 0 || order > u32::MAX as i64 {
        return Err(corrupt("invalid sort order ID"));
    }
    proof {
        assert forall|id: u32| #[trigger] schema_ids@.contains(id) <==> has_schema(
            rows.schemas@,
            id as i64,
        ) by {
            if schema_ids@.contains(id) {
                let i = choose|i: int| 0 <= i < schema_ids@.len() && schema_ids@[i] == id;
                assert(rows.schemas@[i].schema_id == id);
            }
            if has_schema(rows.schemas@, id as i64) {
                let i = choose|i: int|
                    0 <= i < rows.schemas@.len() && (#[trigger] rows.schemas@[i]).schema_id
                        == id as i64;
                assert(schema_ids@[i] == id);
            }
        }
    }
    Ok(
        Catalog {
            properties,
            refs,
            snapshots: lineage_rows(&rows.snapshots),
            schema_ids,
            field_ids,
            current_schema,
            default_partition_spec_id: spec as u32,
            default_sort_order_id: order as u32,
        },
    )
}

} // verus!

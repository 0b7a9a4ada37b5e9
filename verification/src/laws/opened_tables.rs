//! New tables, and what a writer sees of a table.
use crate::catalog::{Catalog, PropertyRow, RefType};
use crate::catalog_rows::{
    catalog_from, current_check, lemma_schema_is_read_back, schema_read, schema_record,
};
use crate::error::{ErrorView, ProtocolError, RuntimeError};
use crate::genesis::{create_genesis, GenesisImage};
use crate::reader_options::ReaderOptions;
use crate::schema::{all_field_ids, fields_view, Schema};
use crate::stored_schema::without_mappings;
use crate::tables::{ImageRows, SchemaRecord};
use vstd::prelude::*;

verus! {

/// A new table has its schema, one commit for its first version, an empty branch
/// `main`, and no data. It is not made of a schema with a problem.
pub proof fn lemma_new_table(
    input: GenesisImage,
    schema: Schema,
    problem: Option<ProtocolError>,
    r: Result<ImageRows, RuntimeError>,
)
    requires
        call_ensures(create_genesis, (&input, &schema, &problem), r),
    ensures
        problem is Some ==> r is Err,
        r matches Ok(rows) ==> {
            &&& rows.meta.table_id == input.table_id
            &&& rows.meta.table_version == 0
            &&& rows.meta.last_sequence_number == 0
            &&& rows.meta.semantic_state == input.semantic_state
            &&& rows.meta.last_commit_id == input.commit_id
            &&& rows.meta.last_commit_sha256 == input.commit_hash
            &&& rows.meta.current_schema_id == schema.schema_id
            &&& rows.schemas@.len() == 1
            &&& rows.schemas@[0].schema_id == schema.schema_id
            &&& rows.commits@.len() == 1
            &&& rows.commits@[0].table_version == 0
            &&& rows.commits@[0].parent_table_version is None
            &&& rows.commits@[0].commit_id == input.commit_id
            &&& rows.commits@[0].semantic_state == input.semantic_state
            &&& rows.commits@[0].sha256 == input.commit_hash
            &&& rows.commits@[0].uri@ == input.commit_uri@
            &&& rows.intents@.len() == 1
            &&& rows.intents@[0].key@ == "otmp.genesis"@
            &&& rows.intents@[0].intent == input.intent_hash
            &&& rows.intents@[0].commit_id == input.commit_id
            &&& rows.refs@.len() == 1
            &&& rows.refs@[0].name@ == "main"@
            &&& rows.refs@[0].ref_type@ == "branch"@
            &&& rows.refs@[0].snapshot_id is None
            &&& rows.snapshots@.len() == 0
            &&& rows.files@.len() == 0
            &&& rows.metrics@.len() == 0
            &&& rows.changes@.len() == 0
            &&& rows.live@.len() == 0
        },
{
}

/// A new table shows the schema that it was made with, and the empty branch `main`.
/// The fields of the schema have different identifiers, and none is a mapping.
pub proof fn lemma_new_table_shows_its_schema(
    input: GenesisImage,
    schema: Schema,
    problem: Option<ProtocolError>,
    rows: ImageRows,
    properties: Vec<PropertyRow>,
    field_ids: Vec<u32>,
    r: Result<Catalog, RuntimeError>,
)
    requires
        call_ensures(
            create_genesis,
            (&input, &schema, &problem),
            Ok::<ImageRows, RuntimeError>(rows),
        ),
        call_ensures(catalog_from, (&rows, properties, field_ids), r),
        all_field_ids(fields_view(schema.fields@)).no_duplicates(),
        without_mappings(fields_view(schema.fields@)),
    ensures
        r matches Ok(catalog) && {
            &&& catalog.current_schema@ == schema@
            &&& catalog.schema_ids@.contains(schema.schema_id)
            &&& forall|id: u32| #[trigger]
                catalog.schema_ids@.contains(id) ==> id == schema.schema_id
            &&& catalog.refs@.len() == 1
            &&& catalog.refs@[0].name@ == "main"@
            &&& catalog.refs@[0].ref_type == RefType::Branch
            &&& catalog.refs@[0].snapshot_id is None
            &&& catalog.snapshots@.len() == 0
            &&& catalog.properties == properties
            &&& catalog.field_ids == field_ids
            &&& catalog.default_partition_spec_id == 0
            &&& catalog.default_sort_order_id == 0
        },
{
    let record = rows.schemas@[0];
    lemma_schema_is_read_back(record, schema, 0);
    assert(schema_record(rows.schemas@, rows.meta.current_schema_id) == Some(record));
    assert(current_check(rows) == Ok::<crate::schema::SchemaView, ErrorView>(schema@));
    assert(crate::catalog_rows::typed(rows.refs@[0]));
    assert(crate::catalog_rows::catalog_check(rows) is Ok);
    let catalog = r->Ok_0;
    assert(rows.schemas@[0].schema_id == schema.schema_id as i64);
    assert(crate::image::has_schema(rows.schemas@, schema.schema_id as i64));
    reveal_strlit("branch");
    reveal_strlit("tag");
    assert("branch"@.len() != "tag"@.len());
    assert(catalog.refs@[0].ref_type.spec_text() == rows.refs@[0].ref_type@);
}

/// The row at the place is the first schema of the identifier.
pub open spec fn is_schema(schemas: Seq<SchemaRecord>, i: int, id: i64) -> bool {
    &&& 0 <= i < schemas.len()
    &&& schemas[i].schema_id == id
    &&& forall|j: int| 0 <= j < i ==> (#[trigger] schemas[j]).schema_id != id
}

proof fn lemma_schema(schemas: Seq<SchemaRecord>, id: i64) -> (i: int)
    ensures
        match schema_record(schemas, id) {
            Some(record) => is_schema(schemas, i, id) && schemas[i] == record,
            None => forall|k: int| 0 <= k < schemas.len() ==> (#[trigger] schemas[k]).schema_id
                != id,
        },
    decreases schemas.len(),
{
    if schemas.len() == 0 || schemas[0].schema_id == id {
        0
    } else {
        let rest = schemas.skip(1);
        let i = lemma_schema(rest, id);
        assert forall|k: int| 0 < k < schemas.len() implies #[trigger] schemas[k] == rest[k
            - 1] by {}
        i + 1
    }
}

/// A writer sees the rows of a table: its refs with their kinds and snapshots, its
/// snapshots and schemas, and as the current schema the one that the table names.
pub proof fn lemma_catalog_shows_the_rows(
    rows: ImageRows,
    properties: Vec<PropertyRow>,
    field_ids: Vec<u32>,
    r: Result<Catalog, RuntimeError>,
)
    requires
        call_ensures(catalog_from, (&rows, properties, field_ids), r),
    ensures
        r matches Ok(catalog) ==> {
            &&& catalog.properties == properties
            &&& catalog.field_ids == field_ids
            &&& catalog.refs@.len() == rows.refs@.len()
            &&& forall|i: int|
                0 <= i < rows.refs@.len() ==> {
                    let row = #[trigger] catalog.refs@[i];
                    &&& row.name@ == rows.refs@[i].name@
                    &&& row.snapshot_id == rows.refs@[i].snapshot_id
                    &&& rows.refs@[i].ref_type@ == (match row.ref_type {
                        RefType::Branch => "branch"@,
                        RefType::Tag => "tag"@,
                    })
                }
            &&& catalog.snapshots@.len() == rows.snapshots@.len()
            &&& forall|i: int|
                0 <= i < rows.snapshots@.len() ==> #[trigger] catalog.snapshots@[i]
                    == rows.snapshots@[i].row
            &&& forall|i: int|
                0 <= i < rows.schemas@.len() ==> 0 <= (#[trigger] rows.schemas@[i]).schema_id
                    <= 0xffff_ffff && catalog.schema_ids@.contains(rows.schemas@[i].schema_id as u32)
            &&& forall|id: u32| #[trigger]
                catalog.schema_ids@.contains(id) ==> exists|i: int|
                    0 <= i < rows.schemas@.len() && (#[trigger] rows.schemas@[i]).schema_id == id
            &&& catalog.current_schema.schema_id == rows.meta.current_schema_id
            &&& exists|i: int| #[trigger]
                is_schema(rows.schemas@, i, rows.meta.current_schema_id)
                    && catalog.current_schema@ == schema_read(rows.schemas@[i])
            &&& catalog.default_partition_spec_id == rows.meta.default_partition_spec_id
            &&& catalog.default_sort_order_id == rows.meta.default_sort_order_id
        },
        (exists|i: int|
            0 <= i < rows.refs@.len() && (#[trigger] rows.refs@[i]).ref_type@ != "branch"@
                && rows.refs@[i].ref_type@ != "tag"@) ==> r is Err,
{
    if let Ok(catalog) = r {
        let k = lemma_schema(rows.schemas@, rows.meta.current_schema_id);
        assert(is_schema(rows.schemas@, k, rows.meta.current_schema_id));
        assert(catalog.snapshots@ == crate::image::snapshot_rows(rows.snapshots@));
        assert forall|i: int| 0 <= i < rows.schemas@.len() implies 0 <= (
        #[trigger] rows.schemas@[i]).schema_id <= 0xffff_ffff && catalog.schema_ids@.contains(
            rows.schemas@[i].schema_id as u32,
        ) by {
            let id = rows.schemas@[i].schema_id;
            assert(crate::image::small(id));
            assert(crate::image::has_schema(rows.schemas@, (id as u32) as i64));
        }
        assert forall|id: u32| #[trigger] catalog.schema_ids@.contains(id) implies exists|i: int|
            0 <= i < rows.schemas@.len() && (#[trigger] rows.schemas@[i]).schema_id == id by {
            assert(crate::image::has_schema(rows.schemas@, id as i64));
        }
        assert forall|i: int| 0 <= i < rows.refs@.len() implies {
            let row = #[trigger] catalog.refs@[i];
            &&& row.name@ == rows.refs@[i].name@
            &&& row.snapshot_id == rows.refs@[i].snapshot_id
            &&& rows.refs@[i].ref_type@ == (match row.ref_type {
                RefType::Branch => "branch"@,
                RefType::Tag => "tag"@,
            })
        } by {}
        if exists|i: int|
            0 <= i < rows.refs@.len() && (#[trigger] rows.refs@[i]).ref_type@ != "branch"@
                && rows.refs@[i].ref_type@ != "tag"@ {
            let i = choose|i: int|
                0 <= i < rows.refs@.len() && (#[trigger] rows.refs@[i]).ref_type@ != "branch"@
                    && rows.refs@[i].ref_type@ != "tag"@;
            assert(crate::catalog_rows::typed(rows.refs@[i]));
        }
    }
}

/// Budgets are taken exactly if each has room for a page, windows are whole pages
/// within the cache, one to eight reads go on at a time, and eight of the largest
/// records fit the cache.
pub proof fn lemma_budgets(options: ReaderOptions, r: Result<(), RuntimeError>)
    requires
        call_ensures(ReaderOptions::validate, (&options,), r),
    ensures
        r is Ok <==> {
            &&& options.cache_budget_bytes >= 0x1000
            &&& options.engine_page_cache_bytes >= 0x1000
            &&& options.checkpoint_window_bytes >= 0x1000
            &&& options.checkpoint_window_bytes as int % 0x1000 == 0
            &&& options.checkpoint_window_bytes <= options.cache_budget_bytes
            &&& 1 <= options.max_inflight_reads <= 8
            &&& options.maximum_record_bytes >= 0x1000
            &&& 8 * options.maximum_record_bytes <= options.cache_budget_bytes
        },
{
}

/// Only an outcome that is not known, a race that was lost too often, and a store that
/// may do better next time are worth another try.
pub proof fn lemma_errors_worth_another_try(e: RuntimeError, again: bool)
    requires
        call_ensures(RuntimeError::retryable, (&e,), again),
    ensures
        again <==> (e@ is PublicationIndeterminate || e@ is RebaseExhausted || (e@
            matches ErrorView::Storage(error) && (error is Io || error is Injected))),
{
}

} // verus!

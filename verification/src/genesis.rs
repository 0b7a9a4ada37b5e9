//! The rows of a new table's first image.
use crate::error::{ErrorView, ProtocolError, RuntimeError};
use crate::hash::{Id, Sha256};
use crate::image::{protocol_error, protocol_view, APPLICATION_ID, PAGE_SIZE, USER_VERSION};
use crate::schema::{
    copy_field, field_view, fields_view, lemma_fields_view, text_view, Field, FieldView, Schema,
    TypeKind,
};
use crate::tables::{
    CommitRow, FeatureRow, FieldRow, ImageRows, IntentRow, MetaRow, RefRecord, SchemaRecord,
};
use vstd::prelude::*;

verus! {

#[derive(Debug)]
pub struct GenesisImage {
    pub table_id: Id,
    pub created_at_ms: i64,
    pub semantic_state: Sha256,
    pub commit_id: Id,
    pub commit_hash: Sha256,
    pub commit_uri: String,
    pub operation_json: String,
    pub result_json: String,
    pub intent_hash: Sha256,
    pub metadata_json: String,
    pub reader_features_json: String,
    pub writer_features_json: String,
}

/// A field row by its parent, its place and its field.
pub struct FieldRowView {
    pub parent: Option<u32>,
    pub ordinal: nat,
    pub field: FieldView,
}

pub open spec fn field_rows_view(rows: Seq<FieldRow>) -> Seq<FieldRowView> {
    Seq::new(
        rows.len(),
        |i: int|
            FieldRowView {
                parent: rows[i].parent,
                ordinal: rows[i].ordinal as nat,
                field: rows[i].field@,
            },
    )
}

/// The row of the last of some fields. Fields that are stored one by one all come
/// first under their parent.
pub open spec fn last_row(fields: Seq<FieldView>, parent: Option<u32>, ordered: bool) -> FieldRowView {
    FieldRowView {
        parent,
        ordinal: if ordered {
            (fields.len() - 1) as nat
        } else {
            0
        },
        field: fields.last(),
    }
}

/// The rows of fields under a parent: each field before those below it.
pub open spec fn stored_fields(
    fields: Seq<FieldView>,
    parent: Option<u32>,
    ordered: bool,
) -> Seq<FieldRowView>
    decreases fields,
{
    if fields.len() == 0 {
        Seq::empty()
    } else {
        stored_fields(fields.drop_last(), parent, ordered).push(
            last_row(fields, parent, ordered),
        ) + below(fields.last())
    }
}

/// The rows below a field. The key and the value of a mapping are stored one by
/// one.
pub open spec fn below(field: FieldView) -> Seq<FieldRowView>
    decreases field,
{
    stored_fields(field.children, Some(field.field_id), !(field.kind is Mapping))
}

/// Whether every list of fields can be numbered.
pub open spec fn numbered(fields: Seq<FieldView>) -> bool {
    fields.len() <= u32::MAX && each_numbered(fields)
}

pub open spec fn each_numbered(fields: Seq<FieldView>) -> bool
    decreases fields,
{
    fields.len() == 0 || (each_numbered(fields.drop_last()) && numbered_below(fields.last()))
}

pub open spec fn numbered_below(field: FieldView) -> bool
    decreases field,
{
    field.children.len() <= u32::MAX && each_numbered(field.children)
}

pub open spec fn ordinal_error() -> ErrorView {
    ErrorView::InvalidAppend("field ordinal overflow"@)
}

proof fn lemma_not_numbered(fields: Seq<FieldView>, n: int)
    requires
        0 <= n < fields.len(),
        !numbered_below(fields[n]),
    ensures
        !each_numbered(fields),
    decreases fields.len(),
{
    if n < fields.len() - 1 {
        assert(fields.drop_last()[n] == fields[n]);
        lemma_not_numbered(fields.drop_last(), n);
    }
}

/// Adds the rows of fields under a parent.
fn insert_fields(
    fields: &Vec<Field>,
    parent: Option<u32>,
    ordered: bool,
    rows: &mut Vec<FieldRow>,
) -> (r: Result<(), RuntimeError>)
    ensures
        match r {
            Ok(()) => numbered(fields_view(fields@)) && field_rows_view(final(rows)@)
                == field_rows_view(old(rows)@) + stored_fields(
                fields_view(fields@),
                parent,
                ordered,
            ),
            Err(e) => !numbered(fields_view(fields@)) && e@ == ordinal_error(),
        },
    decreases fields@,
{
    let ghost all = fields_view(fields@);
    let ghost start = field_rows_view(rows@);
    proof {
        lemma_fields_view(fields@);
        assert(all.take(0) =~= Seq::<FieldView>::empty());
        assert(start + stored_fields(all.take(0), parent, ordered) =~= start);
    }
    if fields.len() as u64 > u32::MAX as u64 {
        return Err(RuntimeError::InvalidAppend("field ordinal overflow".to_owned()));
    }
    let mut i: usize = 0;
    while i < fields.len()
        invariant
            i <= fields@.len() <= u32::MAX,
            all == fields_view(fields@),
            all.len() == fields@.len(),
            forall|k: int| 0 <= k < all.len() ==> #[trigger] all[k] == field_view(&fields@[k]),
            each_numbered(all.take(i as int)),
            start == field_rows_view(old(rows)@),
            field_rows_view(rows@) == start + stored_fields(all.take(i as int), parent, ordered),
        decreases fields@.len() - i,
    {
        let field = &fields[i];
        let ghost before = field_rows_view(rows@);
        let ghost shown = last_row(all.take(i + 1), parent, ordered);
        let ordinal: u32 = if ordered {
            i as u32
        } else {
            0
        };
        rows.push(FieldRow { parent, ordinal, field: copy_field(field) });
        let nested = match &field.field_type.kind {
            TypeKind::Mapping => false,
            _ => true,
        };
        proof {
            assert(all[i as int] == field@);
            assert(all.take(i + 1).last() == field@);
            assert(field_rows_view(rows@) =~= before.push(shown));
            assert(decreases_to!(fields@ => fields@[i as int]));
            assert(decreases_to!(fields@[i as int] => fields@[i as int].field_type));
            assert(decreases_to!(
                fields@[i as int].field_type => fields@[i as int].field_type.children
            ));
            assert(decreases_to!(
                fields@[i as int].field_type.children => fields@[i as int].field_type.children@
            ));
            assert(all.take(i + 1).drop_last() =~= all.take(i as int));
            reveal_with_fuel(numbered_below, 2);
            reveal_with_fuel(below, 2);
        }
        match insert_fields(&field.field_type.children, Some(field.field_id), nested, rows) {
            Err(e) => {
                proof {
                    assert(!numbered_below(all[i as int]));
                    lemma_not_numbered(all, i as int);
                }
                return Err(e);
            },
            Ok(()) => {},
        }
        proof {
            let done = stored_fields(all.take(i as int), parent, ordered);
            assert(stored_fields(all.take(i + 1), parent, ordered) == done.push(shown) + below(
                field@,
            )) by {
                reveal_with_fuel(stored_fields, 2);
            }
            assert(field_rows_view(rows@) =~= start + (done.push(shown) + below(field@)));
            assert(each_numbered(all.take(i + 1))) by {
                reveal_with_fuel(each_numbered, 2);
            }
        }
        i = i + 1;
    }
    assert(all.take(i as int) =~= all);
    Ok(())
}

pub fn copy_numbers(numbers: &Vec<u32>) -> (copy: Vec<u32>)
    ensures
        copy@ == numbers@,
{
    let mut copy: Vec<u32> = Vec::new();
    let mut i: usize = 0;
    while i < numbers.len()
        invariant
            i <= numbers@.len(),
            copy@ == numbers@.take(i as int),
        decreases numbers@.len() - i,
    {
        copy.push(numbers[i]);
        i = i + 1;
        assert(copy@ =~= numbers@.take(i as int));
    }
    assert(copy@ =~= numbers@);
    copy
}

/// The stored form of a schema.
pub open spec fn schema_stored(record: SchemaRecord, schema: Schema, version: i64) -> bool {
    &&& record.schema_id == schema.schema_id
    &&& record.parent_schema_id == (match schema.parent_schema_id {
        Some(parent) => Some(parent as i64),
        None => None,
    })
    &&& record.created_version == version
    &&& text_view(record.doc) == text_view(schema.doc)
    &&& field_rows_view(record.fields@) == stored_fields(fields_view(schema.fields@), None, true)
    &&& record.identifiers@ == schema.identifier_field_ids@
    &&& record.problem is None
}

/// The rows of a schema at a version.
pub fn insert_schema(schema: &Schema, version: i64) -> (r: Result<SchemaRecord, RuntimeError>)
    ensures
        match r {
            Ok(record) => numbered(fields_view(schema.fields@)) && schema_stored(
                record,
                *schema,
                version,
            ),
            Err(e) => !numbered(fields_view(schema.fields@)) && e@ == ordinal_error(),
        },
{
    let mut fields: Vec<FieldRow> = Vec::new();
    assert(field_rows_view(fields@) =~= Seq::<FieldRowView>::empty());
    match insert_fields(&schema.fields, None, true, &mut fields) {
        Err(e) => {
            return Err(e);
        },
        Ok(()) => {},
    }
    proof {
        let rows = stored_fields(fields_view(schema.fields@), None, true);
        assert(Seq::<FieldRowView>::empty() + rows =~= rows);
    }
    Ok(
        SchemaRecord {
            schema_id: schema.schema_id as i64,
            parent_schema_id: match schema.parent_schema_id {
                Some(parent) => Some(parent as i64),
                None => None,
            },
            created_version: version,
            doc: match &schema.doc {
                Some(doc) => Some(doc.clone()),
                None => None,
            },
            fields,
            identifiers: copy_numbers(&schema.identifier_field_ids),
            problem: None,
        },
    )
}

pub open spec fn genesis_meta(meta: MetaRow, input: GenesisImage, schema: Schema) -> bool {
    &&& meta.protocol@ == "otmp"@
    &&& meta.protocol_version@ == "0.0.2-alpha"@
    &&& meta.table_id == input.table_id
    &&& meta.table_version == 0
    &&& meta.semantic_state == input.semantic_state
    &&& meta.last_commit_id == input.commit_id
    &&& meta.last_commit_sha256 == input.commit_hash
    &&& meta.last_sequence_number == 0
    &&& meta.current_schema_id == schema.schema_id
    &&& meta.default_partition_spec_id == 0
    &&& meta.default_sort_order_id == 0
    &&& meta.reader_features_json@ == input.reader_features_json@
    &&& meta.writer_features_json@ == input.writer_features_json@
}

pub open spec fn genesis_commit(row: CommitRow, input: GenesisImage) -> bool {
    &&& row.table_version == 0
    &&& row.commit_id == input.commit_id
    &&& row.parent_table_version is None
    &&& row.created_at_ms == input.created_at_ms
    &&& row.intent_count == 1
    &&& row.semantic_state == input.semantic_state
    &&& row.uri@ == input.commit_uri@
    &&& row.sha256 == input.commit_hash
    &&& row.operation_json@ == input.operation_json@
    &&& row.result_json@ == input.result_json@
    &&& row.metadata_json@ == input.metadata_json@
}

pub open spec fn genesis_intent(row: IntentRow, input: GenesisImage) -> bool {
    &&& row.key@ == "otmp.genesis"@
    &&& row.intent == input.intent_hash
    &&& row.commit_id == input.commit_id
    &&& row.table_version == 0
    &&& row.result_json@ == input.result_json@
}

pub open spec fn feature_is(row: FeatureRow, name: Seq<char>) -> bool {
    row.name@ == name && row.requirement@ == "both"@
}

/// The rows of a new table: one schema, one commit with one intent, the empty
/// branch `main`, and the features that every table needs.
pub open spec fn genesis_rows(rows: ImageRows, input: GenesisImage, schema: Schema) -> bool {
    &&& rows.integrity@ == "ok"@
    &&& rows.foreign_key_errors == 0
    &&& rows.application_id == APPLICATION_ID
    &&& rows.user_version == USER_VERSION
    &&& rows.page_size == PAGE_SIZE
    &&& genesis_meta(rows.meta, input, schema)
    &&& rows.commits@.len() == 1 && genesis_commit(rows.commits@[0], input)
    &&& rows.intents@.len() == 1 && genesis_intent(rows.intents@[0], input)
    &&& rows.snapshots@.len() == 0
    &&& rows.summaries@.len() == 0
    &&& rows.files@.len() == 0 && rows.partitions@.len() == 0
    &&& rows.metrics@.len() == 0 && rows.bounds@.len() == 0
    &&& rows.changes@.len() == 0
    &&& rows.live@.len() == 0
    &&& rows.refs@.len() == 1
    &&& rows.refs@[0].name@ == "main"@
    &&& rows.refs@[0].ref_type@ == "branch"@
    &&& rows.refs@[0].snapshot_id is None
    &&& rows.refs@[0].created_version == 0
    &&& rows.refs@[0].updated_version == 0
    &&& rows.schemas@.len() == 1 && schema_stored(rows.schemas@[0], schema, 0)
    &&& rows.partition_specs@ == seq![0i64]
    &&& rows.sort_orders@ == seq![0i64]
    &&& rows.features@.len() == 3
    &&& feature_is(rows.features@[0], "otmp.core.v2"@)
    &&& feature_is(rows.features@[1], "otmp.data.parquet.v1"@)
    &&& feature_is(rows.features@[2], "otmp.metadata.sqlite3-cow.v1"@)
}

fn feature(name: &str) -> (row: FeatureRow)
    ensures
        feature_is(row, name@),
{
    FeatureRow { name: name.to_owned(), requirement: "both".to_owned() }
}

/// The rows of a new table. `problem` is what the protocol's own rules find wrong
/// with its schema.
pub fn create_genesis(
    input: &GenesisImage,
    schema: &Schema,
    problem: &Option<ProtocolError>,
) -> (r: Result<ImageRows, RuntimeError>)
    ensures
        match r {
            Ok(rows) => {
                &&& problem is None
                &&& numbered(fields_view(schema.fields@))
                &&& genesis_rows(rows, *input, *schema)
            },
            Err(e) => match *problem {
                Some(problem) => e@ == protocol_view(problem),
                None => !numbered(fields_view(schema.fields@)) && e@ == ordinal_error(),
            },
        },
{
    match problem {
        Some(problem) => {
            return Err(protocol_error(problem));
        },
        None => {},
    }
    let record = match insert_schema(schema, 0) {
        Err(e) => {
            return Err(e);
        },
        Ok(record) => record,
    };
    let mut schemas: Vec<SchemaRecord> = Vec::new();
    schemas.push(record);
    let mut commits: Vec<CommitRow> = Vec::new();
    commits.push(
        CommitRow {
            table_version: 0,
            commit_id: input.commit_id,
            parent_table_version: None,
            created_at_ms: input.created_at_ms,
            intent_count: 1,
            semantic_state: input.semantic_state,
            uri: input.commit_uri.clone(),
            sha256: input.commit_hash,
            operation_json: input.operation_json.clone(),
            result_json: input.result_json.clone(),
            metadata_json: input.metadata_json.clone(),
        },
    );
    let mut intents: Vec<IntentRow> = Vec::new();
    intents.push(
        IntentRow {
            key: "otmp.genesis".to_owned(),
            intent: input.intent_hash,
            commit_id: input.commit_id,
            table_version: 0,
            result_json: input.result_json.clone(),
        },
    );
    let mut refs: Vec<RefRecord> = Vec::new();
    refs.push(
        RefRecord {
            name: "main".to_owned(),
            ref_type: "branch".to_owned(),
            snapshot_id: None,
            created_version: 0,
            updated_version: 0,
        },
    );
    let mut features: Vec<FeatureRow> = Vec::new();
    features.push(feature("otmp.core.v2"));
    features.push(feature("otmp.data.parquet.v1"));
    features.push(feature("otmp.metadata.sqlite3-cow.v1"));
    let mut partition_specs: Vec<i64> = Vec::new();
    partition_specs.push(0);
    let mut sort_orders: Vec<i64> = Vec::new();
    sort_orders.push(0);
    let rows = ImageRows {
        integrity: "ok".to_owned(),
        foreign_key_errors: 0,
        application_id: APPLICATION_ID,
        user_version: USER_VERSION,
        page_size: PAGE_SIZE as i64,
        meta: MetaRow {
            protocol: "otmp".to_owned(),
            protocol_version: "0.0.2-alpha".to_owned(),
            table_id: input.table_id,
            table_version: 0,
            semantic_state: input.semantic_state,
            last_commit_id: input.commit_id,
            last_commit_sha256: input.commit_hash,
            last_sequence_number: 0,
            current_schema_id: schema.schema_id as i64,
            default_partition_spec_id: 0,
            default_sort_order_id: 0,
            reader_features_json: input.reader_features_json.clone(),
            writer_features_json: input.writer_features_json.clone(),
        },
        commits,
        intents,
        snapshots: Vec::new(),
        summaries: Vec::new(),
        files: Vec::new(),
        partitions: Vec::new(),
        metrics: Vec::new(),
        bounds: Vec::new(),
        changes: Vec::new(),
        live: Vec::new(),
        refs,
        schemas,
        partition_specs,
        sort_orders,
        features,
    };
    proof {
        assert(rows.partition_specs@ =~= seq![0i64]);
        assert(rows.sort_orders@ =~= seq![0i64]);
    }
    Ok(rows)
}

} // verus!

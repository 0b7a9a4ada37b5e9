//! The relational rows of a metadata image.
use crate::catalog::SnapshotRow;
use crate::error::{corrupt, ErrorView, ProtocolError, RuntimeError};
use crate::hash::{Id, Sha256};
use crate::schema::Field;
use crate::text::joined;
use vstd::prelude::*;

verus! {

#[derive(Debug)]
pub struct MetaRow {
    pub protocol: String,
    pub protocol_version: String,
    pub table_id: Id,
    pub table_version: i64,
    pub semantic_state: Sha256,
    pub last_commit_id: Id,
    pub last_commit_sha256: Sha256,
    pub last_sequence_number: i64,
    pub current_schema_id: i64,
    pub default_partition_spec_id: i64,
    pub default_sort_order_id: i64,
    pub reader_features_json: String,
    pub writer_features_json: String,
}

#[derive(Debug)]
pub struct CommitRow {
    pub table_version: i64,
    pub commit_id: Id,
    pub parent_table_version: Option<i64>,
    pub created_at_ms: i64,
    pub intent_count: i64,
    pub semantic_state: Sha256,
    pub uri: String,
    pub sha256: Sha256,
    pub operation_json: String,
    pub result_json: String,
    pub metadata_json: String,
}

/// What was committed under an idempotency key.
#[derive(Debug)]
pub struct IntentRow {
    pub key: String,
    pub intent: Sha256,
    pub commit_id: Id,
    pub table_version: i64,
    pub result_json: String,
}

#[derive(Debug)]
pub struct SnapshotRecord {
    pub row: SnapshotRow,
    pub schema_id: i64,
    pub partition_spec_id: i64,
    pub sort_order_id: i64,
    pub operation: String,
    pub committed_table_version: i64,
    pub committed_at_ms: i64,
    pub scan_root_uri: Option<String>,
    pub scan_root_sha256: Option<Sha256>,
    pub summary_json: String,
    pub metadata_json: String,
}

#[derive(Debug)]
pub struct SummaryRow {
    pub snapshot_id: Id,
    pub key: String,
    pub value_json: String,
}

#[derive(Debug)]
pub struct FileRecord {
    pub file_id: Id,
    pub file_kind: String,
    pub uri: String,
    pub object_identity: Option<String>,
    pub file_format: String,
    pub file_size_bytes: i64,
    pub record_count: i64,
    pub schema_id: i64,
    pub partition_spec_id: i64,
    pub sort_order_id: Option<i64>,
    pub partition_values_cbor: Vec<u8>,
    pub partition_hash: Sha256,
    pub content_sha256: Option<Sha256>,
    pub encryption_metadata: Option<Vec<u8>>,
    pub data_sequence_number: i64,
    pub file_sequence_number: i64,
    pub created_snapshot_id: Id,
    pub created_version: i64,
    pub metadata_json: String,
}

/// What the protocol's codecs say of a file's address and partition values.
#[derive(Debug)]
pub struct PartitionFacts {
    pub uri_problem: Option<ProtocolError>,
    pub tuple_problem: Option<ProtocolError>,
    pub tuple_empty: bool,
    /// The digest of the stored partition values.
    pub hash: Sha256,
}

/// What the protocol's codecs say of a stored bound.
#[derive(Debug)]
pub struct BoundFacts {
    /// Why it cannot be decoded.
    pub undecodable: Option<ProtocolError>,
    /// What is wrong with the decoded value.
    pub problem: Option<ProtocolError>,
    pub accepted: bool,
    pub null: bool,
    pub nan: bool,
}

#[derive(Debug)]
pub struct MetricRecord {
    pub file_id: Id,
    pub field_id: i64,
    pub column_size_bytes: Option<i64>,
    pub value_count: Option<i64>,
    pub null_count: Option<i64>,
    pub nan_count: Option<i64>,
    pub distinct_count: Option<i64>,
    pub lower_bound_cbor: Option<Vec<u8>>,
    pub upper_bound_cbor: Option<Vec<u8>>,
    pub bloom_filter_uri: Option<String>,
    pub bloom_filter_sha256: Option<Sha256>,
    pub metadata_json: String,
}

#[derive(Debug)]
pub struct ChangeRow {
    pub snapshot_id: Id,
    pub file_id: Id,
    pub change_kind: String,
}

#[derive(Debug)]
pub struct LiveRow {
    pub ref_name: String,
    pub file_id: Id,
    pub added_snapshot_id: Id,
    pub data_sequence_number: i64,
    pub file_sequence_number: i64,
}

#[derive(Debug)]
pub struct RefRecord {
    pub name: String,
    pub ref_type: String,
    pub snapshot_id: Option<Id>,
    pub created_version: i64,
    pub updated_version: i64,
}

/// A schema with its fields as they are stored row by row.
#[derive(Debug)]
pub struct SchemaRecord {
    pub schema_id: i64,
    pub parent_schema_id: Option<i64>,
    pub created_version: i64,
    pub doc: Option<String>,
    pub fields: Vec<FieldRow>,
    /// The identifier fields in their order.
    pub identifiers: Vec<u32>,
    /// What the protocol's own rules find wrong with the schema.
    pub problem: Option<ProtocolError>,
}

#[derive(Debug)]
pub struct FieldRow {
    pub parent: Option<u32>,
    pub ordinal: u32,
    pub field: Field,
}

#[derive(Debug)]
pub struct FeatureRow {
    pub name: String,
    pub requirement: String,
}

/// All rows of an image, and what its engine says of the file.
#[derive(Debug)]
pub struct ImageRows {
    pub integrity: String,
    pub foreign_key_errors: i64,
    pub application_id: i64,
    pub user_version: i64,
    pub page_size: i64,
    pub meta: MetaRow,
    pub commits: Vec<CommitRow>,
    pub intents: Vec<IntentRow>,
    pub snapshots: Vec<SnapshotRecord>,
    pub summaries: Vec<SummaryRow>,
    pub files: Vec<FileRecord>,
    pub partitions: Vec<PartitionFacts>,
    pub metrics: Vec<MetricRecord>,
    pub bounds: Vec<MetricFacts>,
    pub changes: Vec<ChangeRow>,
    pub live: Vec<LiveRow>,
    pub refs: Vec<RefRecord>,
    pub schemas: Vec<SchemaRecord>,
    pub partition_specs: Vec<i64>,
    pub sort_orders: Vec<i64>,
    /// In order of their names.
    pub features: Vec<FeatureRow>,
}

/// What the protocol's codecs say of the bounds of a metric.
#[derive(Debug)]
pub struct MetricFacts {
    pub lower: Option<BoundFacts>,
    pub upper: Option<BoundFacts>,
    pub reversed: bool,
}

/// A count that the image can store.
pub open spec fn stored(value: u64, name: Seq<char>) -> Result<i64, ErrorView> {
    if value <= i64::MAX {
        Ok(value as i64)
    } else {
        Err(ErrorView::InvalidAppend(name + " exceeds SQLite INTEGER"@))
    }
}

pub fn sqlite_i64(value: u64, name: &str) -> (r: Result<i64, RuntimeError>)
    ensures
        match r {
            Ok(n) => stored(value, name@) == Ok::<i64, ErrorView>(n),
            Err(e) => stored(value, name@) == Err::<i64, ErrorView>(e@),
        },
{
    if value <= i64::MAX as u64 {
        Ok(value as i64)
    } else {
        Err(RuntimeError::InvalidAppend(joined(name, " exceeds SQLite INTEGER")))
    }
}

pub fn optional_sqlite_i64(value: Option<u64>, name: &str) -> (r: Result<
    Option<i64>,
    RuntimeError,
>)
    ensures
        match (value, r) {
            (None, r) => r matches Ok(n) && n is None,
            (Some(v), Ok(n)) => n is Some && stored(v, name@) == Ok::<i64, ErrorView>(n->0),
            (Some(v), Err(e)) => stored(v, name@) == Err::<i64, ErrorView>(e@),
        },
{
    match value {
        None => Ok(None),
        Some(v) => match sqlite_i64(v, name) {
            Ok(n) => Ok(Some(n)),
            Err(e) => Err(e),
        },
    }
}

/// A stored number that cannot be negative.
pub fn nonnegative(value: i64, name: &str) -> (r: Result<u64, RuntimeError>)
    ensures
        match r {
            Ok(n) => value >= 0 && n == value,
            Err(e) => value < 0 && e@ == ErrorView::Corrupt("negative "@ + name@),
        },
{
    if value >= 0 {
        Ok(value as u64)
    } else {
        Err(RuntimeError::Corrupt(joined("negative ", name)))
    }
}

/// An identifier from its stored bytes.
pub fn id_from_blob(blob: &Vec<u8>) -> (r: Result<Id, RuntimeError>)
    ensures
        match r {
            Ok(id) => blob@.len() == 16 && id@ == blob@,
            Err(e) => blob@.len() != 16 && e@ == ErrorView::Corrupt("invalid ID blob"@),
        },
{
    if blob.len() != 16 {
        return Err(corrupt("invalid ID blob"));
    }
    let mut bytes: [u8; 16] = [0;16];
    let mut i: usize = 0;
    while i < 16
        invariant
            i <= 16,
            blob@.len() == 16,
            bytes@.len() == 16,
            forall|k: int| 0 <= k < i ==> #[trigger] bytes@[k] == blob@[k],
        decreases 16 - i,
    {
        bytes[i] = blob[i];
        i = i + 1;
    }
    assert(bytes@ =~= blob@);
    Ok(Id { bytes })
}

/// A digest from its stored bytes.
pub fn hash_from_blob(blob: &Vec<u8>) -> (r: Result<Sha256, RuntimeError>)
    ensures
        match r {
            Ok(hash) => blob@.len() == 32 && hash@ == blob@,
            Err(e) => blob@.len() != 32 && e@ == ErrorView::Corrupt("invalid SHA-256 blob"@),
        },
{
    if blob.len() != 32 {
        return Err(corrupt("invalid SHA-256 blob"));
    }
    let mut bytes: [u8; 32] = [0;32];
    let mut i: usize = 0;
    while i < 32
        invariant
            i <= 32,
            blob@.len() == 32,
            bytes@.len() == 32,
            forall|k: int| 0 <= k < i ==> #[trigger] bytes@[k] == blob@[k],
        decreases 32 - i,
    {
        bytes[i] = blob[i];
        i = i + 1;
    }
    assert(bytes@ =~= blob@);
    Ok(Sha256 { bytes })
}

pub open spec fn fits_u32(n: i64) -> bool {
    0 <= n <= u32::MAX
}

fn small(n: i64, message: &str) -> (r: Result<u32, RuntimeError>)
    ensures
        match r {
            Ok(value) => value == n,
            Err(e) => !fits_u32(n) && e@ == ErrorView::Corrupt(message@),
        },
{
    if n < 0 || n > u32::MAX as i64 {
        return Err(corrupt(message));
    }
    Ok(n as u32)
}

/// The numbers of a stored field: its identity, its parent and its ordinal.
pub fn normalized_numbers(field_id: i64, parent: Option<i64>, ordinal: i64) -> (r: Result<
    (u32, Option<u32>, u32),
    RuntimeError,
>)
    ensures
        match r {
            Ok((id, own_parent, at)) => {
                &&& id == field_id
                &&& at == ordinal
                &&& match (parent, own_parent) {
                    (Some(n), Some(p)) => p == n,
                    (None, None) => true,
                    _ => false,
                }
            },
            Err(e) => if !fits_u32(field_id) {
                e@ == ErrorView::Corrupt("invalid field ID"@)
            } else if parent matches Some(n) && !fits_u32(n) {
                e@ == ErrorView::Corrupt("invalid parent field ID"@)
            } else {
                !fits_u32(ordinal) && e@ == ErrorView::Corrupt("invalid field ordinal"@)
            },
        },
{
    let id: u32 = match small(field_id, "invalid field ID") {
        Err(e) => {
            return Err(e);
        },
        Ok(n) => n,
    };
    let own_parent: Option<u32> = match parent {
        None => None,
        Some(n) => match small(n, "invalid parent field ID") {
            Err(e) => {
                return Err(e);
            },
            Ok(n) => Some(n),
        },
    };
    match small(ordinal, "invalid field ordinal") {
        Err(e) => Err(e),
        Ok(at) => Ok((id, own_parent, at)),
    }
}

/// The current schema, the tip of the main branch and the last sequence number,
/// from the row that holds them.
pub fn current_schema_and_snapshot(schema: i64, snapshot: &Option<Vec<u8>>, sequence: i64) -> (r:
    Result<(u32, Option<Id>, u64), RuntimeError>)
    ensures
        match r {
            Ok((id, tip, last)) => {
                &&& id == schema
                &&& last == sequence
                &&& match (*snapshot, tip) {
                    (Some(blob), Some(tip)) => tip@ == blob@,
                    (None, None) => true,
                    _ => false,
                }
            },
            Err(e) => if !fits_u32(schema) {
                e@ == ErrorView::Corrupt("invalid schema ID"@)
            } else if snapshot matches Some(blob) && blob@.len() != 16 {
                e@ == ErrorView::Corrupt("invalid ID blob"@)
            } else {
                sequence < 0 && e@ == ErrorView::Corrupt("invalid sequence"@)
            },
        },
{
    let id: u32 = match small(schema, "invalid schema ID") {
        Err(e) => {
            return Err(e);
        },
        Ok(n) => n,
    };
    let tip: Option<Id> = match snapshot {
        None => None,
        Some(blob) => match id_from_blob(blob) {
            Err(e) => {
                return Err(e);
            },
            Ok(tip) => Some(tip),
        },
    };
    if sequence < 0 {
        return Err(corrupt("invalid sequence"));
    }
    Ok((id, tip, sequence as u64))
}

/// The page count of a written checkpoint, as its engine reports it.
pub fn checkpoint_pages(length: usize, page_count: i64) -> (r: Result<u64, RuntimeError>)
    ensures
        match r {
            Ok(n) => length as int % 4096 == 0 && n == page_count,
            Err(e) => if length as int % 4096 != 0 {
                e@ == ErrorView::Corrupt("checkpoint is not page aligned"@)
            } else {
                page_count < 0 && e@ == ErrorView::Corrupt("invalid page count"@)
            },
        },
{
    if length % 4096 != 0 {
        return Err(corrupt("checkpoint is not page aligned"));
    }
    if page_count < 0 {
        return Err(corrupt("invalid page count"));
    }
    Ok(page_count as u64)
}

} // verus!

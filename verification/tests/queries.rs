//! The listing queries on a database with the tables that they read.
use otmp::cells::{id, Cell, IdRule};
use otmp::error::RuntimeError;
use otmp::hash::Id;
use otmp::queries::{branch_sql, historical_sql, metric_sql, ranged_branch_sql, ranged_historical_sql};

const TABLES: &str = "
    CREATE TABLE otmp_files(
        file_id BLOB PRIMARY KEY, file_kind TEXT NOT NULL, uri TEXT NOT NULL,
        object_identity TEXT, file_format TEXT NOT NULL, file_size_bytes INTEGER NOT NULL,
        record_count INTEGER NOT NULL, content_sha256 BLOB, schema_id INTEGER NOT NULL,
        partition_spec_id INTEGER NOT NULL, sort_order_id INTEGER,
        partition_values_cbor BLOB NOT NULL, partition_hash BLOB NOT NULL,
        encryption_metadata BLOB, data_sequence_number INTEGER NOT NULL,
        file_sequence_number INTEGER NOT NULL, created_snapshot_id BLOB NOT NULL,
        created_version INTEGER NOT NULL);
    CREATE TABLE otmp_snapshots(
        snapshot_id BLOB PRIMARY KEY, sequence_number INTEGER NOT NULL,
        committed_table_version INTEGER NOT NULL);
    CREATE TABLE otmp_ref_live_files(
        ref_name TEXT NOT NULL, file_id BLOB NOT NULL, added_snapshot_id BLOB NOT NULL,
        data_sequence_number INTEGER NOT NULL, file_sequence_number INTEGER NOT NULL,
        PRIMARY KEY(ref_name, file_id));
    CREATE TABLE otmp_snapshot_file_changes(
        snapshot_id BLOB NOT NULL, file_id BLOB NOT NULL, change_kind TEXT NOT NULL,
        PRIMARY KEY(snapshot_id, file_id));
    CREATE TABLE otmp_file_metrics(
        file_id BLOB NOT NULL, field_id INTEGER NOT NULL, column_size_bytes INTEGER,
        value_count INTEGER, null_count INTEGER, nan_count INTEGER, distinct_count INTEGER,
        lower_bound_cbor BLOB, upper_bound_cbor BLOB, ordered_bound_type TEXT,
        ordered_lower_i64 INTEGER, ordered_upper_i64 INTEGER, metadata_json TEXT NOT NULL,
        PRIMARY KEY(file_id, field_id));";

fn database(rows: &str) -> rusqlite::Connection {
    let connection = rusqlite::Connection::open_in_memory().unwrap();
    connection.execute_batch(TABLES).unwrap();
    connection.execute_batch(rows).unwrap();
    connection
}

/// Takes only identifiers of version seven.
struct Versioned;

impl IdRule for Versioned {
    fn check_id(&self, id: &Id) -> Result<(), RuntimeError> {
        if id.bytes[6] >> 4 == 7 {
            Ok(())
        } else {
            Err(RuntimeError::Corrupt("invalid ID".to_string()))
        }
    }
}

#[test]
fn first_branch_batch_exposes_invalid_zero_id_membership() {
    let connection = database(
        "PRAGMA foreign_keys=OFF;
            INSERT INTO otmp_files(file_id,file_kind,uri,file_format,file_size_bytes,record_count,schema_id,partition_spec_id,partition_values_cbor,partition_hash,data_sequence_number,file_sequence_number,created_snapshot_id,created_version)
            VALUES(zeroblob(16),'data','data/invalid.parquet','parquet',1,1,1,0,X'A0',zeroblob(32),0,1,zeroblob(16),1);
            INSERT INTO otmp_ref_live_files VALUES ('main',zeroblob(16),zeroblob(16),0,1);",
    );
    let mut statement = connection.prepare(&branch_sql(false)).unwrap();
    let mut rows = statement.query(("main", 256)).unwrap();
    let row = rows
        .next()
        .unwrap()
        .expect("malformed membership must reach descriptor validation");
    let bytes: Vec<u8> = row.get(0).unwrap();
    assert!(id(&Versioned, &Cell::Blob(bytes)).is_err());
}

const REMOVED: &str = "PRAGMA foreign_keys=OFF;
                 INSERT INTO otmp_files(file_id,file_kind,uri,file_format,file_size_bytes,record_count,schema_id,partition_spec_id,partition_values_cbor,partition_hash,data_sequence_number,file_sequence_number,created_snapshot_id,created_version)
                 VALUES(X'01010101010101010101010101010101','data','data/remove.parquet','parquet',1,1,1,0,X'A0',zeroblob(32),0,1,X'02020202020202020202020202020202',1);
                 INSERT INTO otmp_snapshot_file_changes(snapshot_id,file_id,change_kind)
                 VALUES(X'02020202020202020202020202020202',X'01010101010101010101010101010101','remove');
                 INSERT INTO otmp_file_metrics(file_id,field_id,ordered_bound_type,ordered_lower_i64,ordered_upper_i64,metadata_json)
                 VALUES(X'01010101010101010101010101010101',1,'int64',0,1,'{}');";

#[test]
fn ranged_historical_query_keeps_remove_rows() {
    let connection = database(REMOVED);
    let mut statement = connection.prepare(&ranged_historical_sql(1)).unwrap();
    let mut rows = statement
        .query((
            1_i64,
            "int64",
            50_i64,
            1_i64,
            rusqlite::types::Null,
            1_i64,
            vec![2_u8; 16],
            rusqlite::types::Null,
            256_i64,
        ))
        .unwrap();

    assert_eq!(
        rows.next().unwrap().unwrap().get::<_, String>(0).unwrap(),
        "remove"
    );
}

#[test]
fn ranges_rule_out_added_files_only() {
    let connection = database(REMOVED);
    connection
        .execute_batch(
            "UPDATE otmp_snapshot_file_changes SET change_kind='add';
             INSERT INTO otmp_ref_live_files VALUES('main',X'01010101010101010101010101010101',X'02020202020202020202020202020202',1,1);",
        )
        .unwrap();
    let history = |lower: i64| {
        let mut statement = connection.prepare(&ranged_historical_sql(1)).unwrap();
        let null = rusqlite::types::Null;
        let mut rows = statement
            .query((1_i64, "int64", lower, 1_i64, null, 1_i64, vec![2_u8; 16], null, 256_i64))
            .unwrap();
        rows.next().unwrap().is_some()
    };
    assert!(!history(50));
    assert!(history(1));
    let branch = |lower: i64, inclusive: i64| {
        let mut statement = connection.prepare(&ranged_branch_sql(1, false)).unwrap();
        let null = rusqlite::types::Null;
        let mut rows = statement
            .query((1_i64, "int64", lower, inclusive, null, 1_i64, "main", 256_i64))
            .unwrap();
        rows.next().unwrap().is_some()
    };
    assert!(!branch(50, 1));
    assert!(branch(1, 1));
    assert!(!branch(1, 0));
    let mut statement = connection.prepare(&historical_sql()).unwrap();
    let mut rows =
        statement.query((vec![2_u8; 16], rusqlite::types::Null, 256_i64)).unwrap();
    assert_eq!(rows.next().unwrap().unwrap().get::<_, String>(0).unwrap(), "add");
    let mut statement = connection.prepare(&branch_sql(true)).unwrap();
    let mut rows = statement.query(("main", vec![1_u8; 16], 256_i64)).unwrap();
    assert!(rows.next().unwrap().is_none());
    let mut statement = connection.prepare(&metric_sql(1)).unwrap();
    let mut rows = statement.query((1_i64, vec![1_u8; 16])).unwrap();
    assert_eq!(rows.next().unwrap().unwrap().get::<_, i64>(1).unwrap(), 1);
}

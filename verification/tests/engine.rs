//! Decisions of the reader engine and of the readers over its rows.
use otmp::cells::Cell;
use otmp::error::RuntimeError;
use otmp::hash::{Id, Sha256};
use otmp::history::TextCodec;
use otmp::cells::IdRule;
use otmp::listing::{add_metric, branch_batch, history_batch, place_metric};
use otmp::queries::{branch_sql, metric_sql, range_cte, ranged_branch_sql};
use otmp::ranges::CanonicalRange;
use otmp::reader_engine::{
    cache_kib, cache_pragma, check_page_read, check_parameters, check_query, check_row_limit,
    check_writer_row, kept_charge, opening_charge, query_charge, remember, settle, RowBudget,
};
use otmp::reader_meta::{
    check_setting, read_meta, read_ref, read_sequence, read_snapshot, snapshot_descends_from,
    FeatureCodec,
};
use otmp::reader_options::{ReaderOptions, ReaderStatistics, DEFAULT_PAGE_CACHE_BYTES};
use otmp::reader_rows::{
    after_history_batch, branch_file, check_cursor, check_listing, descriptor_charge,
    historical_file, metric_charge, metric_operations, metric_position, CursorState, FileCursor,
    HistoryNext, MetricOperation, ScalarCodec, SnapshotPoint,
};
use otmp::reader_schema::{load_schema, schema_charge, SchemaCodec};
use otmp::schema::{LogicalType, PrimitiveType, Schema, TypeKind};
use otmp::catalog::SnapshotRow;
use otmp::value::CanonicalValue;

struct Rules;

impl IdRule for Rules {
    fn check_id(&self, id: &Id) -> Result<(), RuntimeError> {
        if id.bytes == [0; 16] {
            return Err(RuntimeError::Corrupt("nil identifier".to_string()));
        }
        Ok(())
    }
}

impl TextCodec for Rules {
    fn parse(&self, text: &String) -> Result<CanonicalValue, RuntimeError> {
        Ok(CanonicalValue::Text(text.clone()))
    }

    fn check_uri(&self, text: &String) -> Result<(), RuntimeError> {
        if text.contains("..") {
            return Err(RuntimeError::Corrupt("unsafe address".to_string()));
        }
        Ok(())
    }
}

impl ScalarCodec for Rules {
    fn decode_scalar(&self, bytes: &Vec<u8>) -> Result<CanonicalValue, RuntimeError> {
        match bytes.first() {
            Some(byte) => Ok(CanonicalValue::Integer(i128::from(*byte))),
            None => Err(RuntimeError::Corrupt("empty scalar".to_string())),
        }
    }
}

impl FeatureCodec for Rules {
    fn parse_features(&self, text: &String) -> Result<Vec<String>, RuntimeError> {
        Ok(text.split(',').map(str::to_string).collect())
    }
}

impl SchemaCodec for Rules {
    fn parse_type(&self, text: &String) -> Result<LogicalType, RuntimeError> {
        Ok(LogicalType {
            kind: TypeKind::Primitive(PrimitiveType { text: text.clone(), float: false }),
            children: vec![],
        })
    }

    fn check_scalar(&self, text: &String) -> Result<(), RuntimeError> {
        if text == "bad" {
            return Err(RuntimeError::Corrupt("bad scalar".to_string()));
        }
        Ok(())
    }

    fn validate_schema(&self, schema: &Schema) -> Result<(), RuntimeError> {
        if schema.fields.len() == 3 {
            return Err(RuntimeError::Corrupt("three fields".to_string()));
        }
        Ok(())
    }
}

fn id(n: u8) -> Id {
    Id::from_bytes([n; 16])
}

fn blob(n: u8) -> Cell {
    Cell::Blob(vec![n; 16])
}

fn words(text: &str) -> Cell {
    Cell::Text(text.to_string())
}

fn number(n: i64) -> Cell {
    Cell::Integer(n)
}

#[test]
fn the_default_page_cache_is_four_mebibytes() {
    let kib = cache_kib(DEFAULT_PAGE_CACHE_BYTES).unwrap();
    assert_eq!(kib, 4096);
    assert_eq!(cache_pragma(4096), "PRAGMA cache_size=-4096");
    assert!(cache_kib(0).is_err());
    assert!(cache_kib(1025).is_err());
    assert_eq!(cache_kib(1024).unwrap(), 1);
}

#[test]
fn working_budgets_are_charged() {
    assert_eq!(opening_charge(1024).unwrap(), 8192);
    assert_eq!(query_charge(1024, 10).unwrap(), 8192 + 20 + 65536);
    assert!(opening_charge(usize::MAX).is_err());
    assert!(query_charge(1024, usize::MAX).is_err());
    assert_eq!(kept_charge(0), None);
    assert_eq!(kept_charge(2), Some(320));
}

#[test]
fn only_reading_statements_are_taken() {
    for sql in ["SELECT 1", "  with a as (select 1) select * from a", "Explain x", "PRAGMA p"] {
        check_query(sql, 1, 1).unwrap();
    }
    for sql in ["DELETE FROM otmp_meta", "SELECTED", "", "INSERT INTO t VALUES(1)"] {
        assert!(matches!(check_query(sql, 1, 64), Err(RuntimeError::Turso(_))));
    }
    assert!(matches!(check_query("SELECT 1", 0, 64), Err(RuntimeError::ResourceExhausted(_))));
    assert!(check_query("SELECT 1", 1, 0).is_err());
}

#[test]
fn rows_are_taken_within_both_budgets() {
    let row = vec![words("name"), number(1), Cell::Null];
    let mut budget = RowBudget::new(2, 1000);
    budget.take(&row, 32).unwrap();
    assert_eq!(budget.used, 4 + 8 + 3 * 32);
    budget.take(&row, 32).unwrap();
    let error = budget.take(&row, 32).unwrap_err();
    assert_eq!(
        error.message(),
        "resource budget exhausted: metadata query row budget exhausted"
    );
    let mut small = RowBudget::new(100, 1);
    assert!(matches!(small.take(&row, 32), Err(RuntimeError::ResourceExhausted(_))));
    assert_eq!(small.rows, 0);
}

#[test]
fn the_failure_of_the_source_is_reported_first() {
    let source = RuntimeError::Corrupt("injected page transport failure".to_string());
    let statement = RuntimeError::Turso("statement".to_string());
    let error = settle(Some(source), None, Some(statement), true).unwrap_err();
    assert!(matches!(error, RuntimeError::Corrupt(m) if m == "injected page transport failure"));
    assert!(matches!(settle(None, None, None, true), Err(RuntimeError::Cancelled)));
    settle(None, None, None, false).unwrap();
    let first = remember(None, RuntimeError::Io("first".to_string()));
    let kept = remember(first, RuntimeError::Io("second".to_string()));
    assert!(matches!(kept, Some(RuntimeError::Io(m)) if m == "first"));
}

#[test]
fn the_writer_takes_no_fractions() {
    check_row_limit(1).unwrap();
    assert!(check_row_limit(0).is_err());
    check_writer_row(0, 1, &vec![number(1)]).unwrap();
    assert!(check_writer_row(1, 1, &vec![number(1)]).is_err());
    assert!(check_writer_row(0, 1, &vec![Cell::Real]).is_err());
    check_parameters(&vec![number(1)]).unwrap();
    assert!(check_parameters(&vec![Cell::Real]).is_err());
    check_page_read(1, 4096).unwrap();
    assert!(check_page_read(0, 4096).is_err());
    assert!(check_page_read(1, 4097).is_err());
}

#[test]
fn reader_budgets_are_checked() {
    let options = ReaderOptions::default();
    options.validate().unwrap();
    assert_eq!(options.cache_budget_bytes, 64 * 1024 * 1024);
    assert_eq!(options.max_inflight_reads, 8);
    for bad in [
        ReaderOptions { max_inflight_reads: 0, ..options },
        ReaderOptions { max_inflight_reads: 9, ..options },
        ReaderOptions { checkpoint_window_bytes: 4097, ..options },
        ReaderOptions { maximum_record_bytes: 16 * 1024 * 1024, ..options },
    ] {
        assert!(matches!(bad.validate(), Err(RuntimeError::ResourceExhausted(_))));
    }
    assert_eq!(ReaderStatistics::default().requests, 0);
}

#[test]
fn queries_are_written_for_their_size() {
    assert!(branch_sql(false).ends_with(" WHERE rf.ref_name=?1 ORDER BY rf.file_id LIMIT ?2"));
    assert!(branch_sql(true).contains("rf.file_id>?2"));
    assert!(range_cte(2).starts_with("WITH ranges("));
    assert!(ranged_branch_sql(1, true).starts_with(&range_cte(1)));
    assert_ne!(metric_sql(1), metric_sql(2));
    assert_eq!(metric_sql(2).matches("(?").count(), 2);
}

fn live_row() -> Vec<Cell> {
    vec![
        blob(5),
        words("data/five.parquet"),
        words("parquet"),
        number(100),
        number(10),
        Cell::Null,
        number(2),
        number(1),
        words("data"),
        Cell::Null,
        number(0),
        number(0),
        Cell::Null,
        blob(7),
        number(2),
        blob(7),
        number(3),
        number(2),
        number(3),
    ]
}

#[test]
fn a_live_file_is_read_from_its_row() {
    let found = branch_file(&Rules, &live_row(), 3).unwrap();
    assert_eq!(found.file.file_id, id(5));
    assert_eq!(found.file.uri, "data/five.parquet");
    assert_eq!(found.file.sequence_number, 2);
    assert_eq!(found.schema_id, 1);
    assert!(branch_file(&Rules, &live_row(), 2).is_err());
    let mut nil = live_row();
    nil[0] = blob(0);
    assert!(branch_file(&Rules, &nil, 3).is_err());
    let mut unsafe_uri = live_row();
    unsafe_uri[1] = words("../five.parquet");
    assert!(branch_file(&Rules, &unsafe_uri, 3).is_err());
    let mut format = live_row();
    format[2] = words("orc");
    assert!(matches!(branch_file(&Rules, &format, 3), Err(RuntimeError::Corrupt(_))));
}

fn point(snapshot: u8, parent: Option<u8>, sequence: u64) -> SnapshotPoint {
    SnapshotPoint {
        snapshot_id: id(snapshot),
        parent_snapshot_id: parent.map(id),
        sequence_number: sequence,
        committed_table_version: sequence + 1,
    }
}

#[test]
fn a_removal_in_history_is_refused() {
    let row = |kind: &str| {
        vec![
            words(kind),
            blob(5),
            words("data/five.parquet"),
            words("parquet"),
            number(100),
            number(10),
            Cell::Blob(Sha256::digest(b"content").bytes.to_vec()),
            number(2),
            number(1),
            words("data"),
            Cell::Null,
            number(0),
            number(0),
            Cell::Null,
            blob(7),
            number(3),
        ]
    };
    let found = historical_file(&Rules, &row("add"), &point(7, None, 2)).unwrap();
    assert_eq!(found.file.content_sha256, Some(Sha256::digest(b"content")));
    let error = historical_file(&Rules, &row("remove"), &point(7, None, 2)).unwrap_err();
    assert_eq!(error.message(), "table is corrupt: historical remove change is unsupported");
}

#[test]
fn listings_go_on_where_they_stopped() {
    check_listing(1, &vec![1, 2]).unwrap();
    assert!(check_listing(0, &vec![]).is_err());
    assert!(check_listing(1, &vec![1, 1]).is_err());
    let cursor = FileCursor {
        pin: id(1),
        ranges: vec![],
        state: CursorState::Branch { file: id(5) },
    };
    let none: Vec<CanonicalRange> = vec![];
    check_cursor(&cursor, id(1), &none, true).unwrap();
    assert!(check_cursor(&cursor, id(2), &none, true).is_err());
    assert!(check_cursor(&cursor, id(1), &none, false).is_err());
    assert!(matches!(
        after_history_batch(&point(7, Some(6), 2), 4, 4, Some(id(5))),
        Some(HistoryNext::Here(_))
    ));
    assert!(matches!(
        after_history_batch(&point(7, Some(6), 2), 3, 4, Some(id(5))),
        Some(HistoryNext::Parent(parent)) if parent == id(6)
    ));
    assert!(matches!(
        after_history_batch(&point(7, None, 2), 3, 4, Some(id(5))),
        Some(HistoryNext::End)
    ));
}

#[test]
fn metrics_are_asked_for_in_groups() {
    let operations = metric_operations(20, &vec![1, 2]);
    let shape: Vec<(usize, usize, u32)> =
        operations.iter().map(|o| (o.offset, o.count, o.field)).collect();
    assert_eq!(shape, vec![(0, 16, 1), (0, 16, 2), (16, 4, 1), (16, 4, 2)]);
    let requested = vec![id(1), id(2)];
    assert_eq!(metric_position(&requested, &id(2)).unwrap(), 1);
    assert!(metric_position(&requested, &id(3)).is_err());
}

#[test]
fn charges_cover_decoded_values() {
    assert_eq!(metric_charge(10), 10 * 4 + 256);
    assert_eq!(metric_charge(usize::MAX), usize::MAX);
    assert!(descriptor_charge(10) >= 10);
    assert!(schema_charge(10) >= 10);
}

fn meta_row() -> Vec<Cell> {
    vec![
        words("otmp"),
        words("0.0.2-alpha"),
        blob(1),
        number(3),
        Cell::Blob(Sha256::digest(b"state").bytes.to_vec()),
        blob(2),
        Cell::Blob(Sha256::digest(b"commit").bytes.to_vec()),
        number(4),
        number(1),
        number(0),
        number(0),
        words("a,b"),
        words("c"),
    ]
}

#[test]
fn the_table_row_is_read_in_its_profile() {
    let outcome = read_meta(&Rules, &vec![meta_row()]);
    if let Ok(meta) = &outcome {
        assert_eq!(meta.table, id(1));
        assert_eq!(meta.version, 3);
    }
    let mut other = meta_row();
    other[1] = words("0.0.1");
    assert!(read_meta(&Rules, &vec![other]).is_err());
    assert!(read_meta(&Rules, &vec![]).is_err());
    check_setting(&vec![vec![number(7)]], 7).unwrap();
    assert!(check_setting(&vec![vec![number(8)]], 7).is_err());
    assert!(outcome.is_ok());
}

#[test]
fn refs_are_read_with_their_type() {
    let name = "main".to_string();
    let branch = read_ref(&Rules, &name, &vec![vec![words("branch"), Cell::Null]]).unwrap();
    assert!(branch.branch && branch.snapshot.is_none());
    assert!(read_ref(&Rules, &name, &vec![vec![words("tag"), Cell::Null]]).is_err());
    assert!(matches!(
        read_ref(&Rules, &name, &vec![]),
        Err(RuntimeError::RefNotFound(n)) if n == "main"
    ));
}

#[test]
fn descent_follows_parents() {
    let rows = vec![
        SnapshotRow { snapshot_id: id(1), parent_snapshot_id: None, sequence_number: 1 },
        SnapshotRow { snapshot_id: id(2), parent_snapshot_id: Some(id(1)), sequence_number: 2 },
    ];
    assert!(snapshot_descends_from(&rows, Some(id(2)), id(1)).unwrap());
    assert!(snapshot_descends_from(&rows, Some(id(2)), id(2)).unwrap());
    assert!(!snapshot_descends_from(&rows, Some(id(1)), id(2)).unwrap());
    assert!(!snapshot_descends_from(&rows, None, id(2)).unwrap());
}

fn field_row(field_id: i64, parent: Cell, name: &str, ordinal: i64) -> Vec<Cell> {
    vec![
        number(field_id),
        parent,
        words(name),
        number(ordinal),
        number(1),
        words("int64"),
        Cell::Null,
        Cell::Null,
        Cell::Null,
    ]
}

#[test]
fn a_schema_is_rebuilt_from_its_rows() {
    let header = vec![vec![Cell::Null, words("doc")]];
    let fields = vec![field_row(1, Cell::Null, "a", 1), field_row(2, Cell::Null, "b", 0)];
    let identifiers = vec![vec![number(2), number(0)]];
    let schema = load_schema(&Rules, 1, &header, &fields, &identifiers).unwrap();
    let names: Vec<&str> = schema.fields.iter().map(|f| f.name.as_str()).collect();
    assert_eq!(names, vec!["b", "a"]);
    assert_eq!(schema.identifier_field_ids, vec![2]);
    assert_eq!(schema.doc.as_deref(), Some("doc"));
    assert!(load_schema(&Rules, 0, &header, &fields, &identifiers).is_err());
    assert!(load_schema(&Rules, 1, &vec![], &fields, &identifiers).is_err());
    let gap = vec![field_row(1, Cell::Null, "a", 1)];
    assert!(load_schema(&Rules, 1, &header, &gap, &identifiers).is_err());
}

fn live_rows(files: &[u8]) -> Vec<Vec<Cell>> {
    files
        .iter()
        .map(|file| {
            let mut row = live_row();
            row[0] = blob(*file);
            row
        })
        .collect()
}

#[test]
fn branch_listings_go_on_behind_the_last_file() {
    let batch = branch_batch(&Rules, &live_rows(&[5, 6]), 3).unwrap();
    assert_eq!(batch.files.len(), 2);
    assert_eq!(batch.files[1].file.file_id, id(6));
    assert!(matches!(batch.next, Some(CursorState::Branch { file }) if file == id(6)));
    let empty = branch_batch(&Rules, &vec![], 3).unwrap();
    assert!(empty.files.is_empty() && empty.next.is_none());
    let mut broken = live_rows(&[5, 6]);
    broken[1][9] = words("identity");
    assert!(branch_batch(&Rules, &broken, 3).is_err());
}

#[test]
fn full_history_batches_stay_at_their_snapshot() {
    let row = vec![
        words("add"),
        blob(5),
        words("data/five.parquet"),
        words("parquet"),
        number(100),
        number(10),
        Cell::Null,
        number(2),
        number(1),
        words("data"),
        Cell::Null,
        number(0),
        number(0),
        Cell::Null,
        blob(7),
        number(3),
    ];
    let rows = vec![row];
    let full = history_batch(&Rules, &rows, &point(7, Some(6), 2), 1).unwrap();
    assert!(matches!(
        full.next,
        HistoryNext::Here(CursorState::Snapshot { snapshot, before_sequence: 2, file: Some(file) })
            if snapshot == id(7) && file == id(5)
    ));
    let part = history_batch(&Rules, &rows, &point(7, Some(6), 2), 2).unwrap();
    assert!(matches!(part.next, HistoryNext::Parent(parent) if parent == id(6)));
    let last = history_batch(&Rules, &rows, &point(7, None, 2), 2).unwrap();
    assert!(matches!(last.next, HistoryNext::End));
}

fn metric_row(file: u8, field: i64) -> Vec<Cell> {
    vec![
        blob(file),
        number(field),
        number(400),
        number(10),
        number(1),
        Cell::Null,
        Cell::Null,
        Cell::Blob(vec![3]),
        Cell::Null,
        words("{}"),
    ]
}

#[test]
fn metrics_belong_to_requested_files_and_columns() {
    let operation = MetricOperation { offset: 16, count: 2, field: 4 };
    let requested = vec![id(1), id(2)];
    let placed = place_metric(&Rules, metric_row(2, 4), &operation, &requested).unwrap();
    assert_eq!(placed.position, 17);
    assert_eq!(placed.metric.field_id, 4);
    assert_eq!(placed.metric.value_count, Some(10));
    assert_eq!(placed.metric.nan_count, None);
    assert!(matches!(placed.metric.lower_bound, Some(CanonicalValue::Integer(3))));
    let message = |row: Vec<Cell>| {
        place_metric(&Rules, row, &operation, &requested).unwrap_err().message()
    };
    assert_eq!(message(vec![]), "table is corrupt: invalid metric row");
    assert_eq!(
        message(metric_row(3, 4)),
        "table is corrupt: metric belongs to an unrequested file"
    );
    assert_eq!(message(metric_row(2, 5)), "table is corrupt: unrequested metric field");
    let mut metrics = vec![placed.metric];
    let again = place_metric(&Rules, metric_row(2, 4), &operation, &requested).unwrap();
    let error = add_metric(&mut metrics, again.metric).unwrap_err();
    assert_eq!(error.message(), "table is corrupt: duplicate metric field");
    assert_eq!(metrics.len(), 1);
    let next = MetricOperation { offset: 16, count: 2, field: 5 };
    let other = place_metric(&Rules, metric_row(2, 5), &next, &requested).unwrap();
    add_metric(&mut metrics, other.metric).unwrap();
    assert_eq!(metrics.len(), 2);
}

fn message<T>(outcome: Result<T, RuntimeError>) -> String {
    match outcome {
        Ok(_) => panic!("nothing was refused"),
        Err(error) => error.message(),
    }
}

#[test]
fn a_table_row_is_refused_for_the_column_that_is_wrong() {
    let with = |at: usize, cell: Cell| {
        let mut row = meta_row();
        row[at] = cell;
        message(read_meta(&Rules, &vec![row]))
    };
    assert_eq!(with(3, number(-1)), "table is corrupt: negative metadata integer");
    assert_eq!(with(4, Cell::Blob(vec![1; 31])), "table is corrupt: invalid metadata hash");
    assert_eq!(with(5, Cell::Blob(vec![1; 15])), "table is corrupt: invalid metadata ID");
    assert_eq!(with(2, blob(0)), "table is corrupt: nil identifier");
    assert_eq!(with(7, number(1 << 32)), "table is corrupt: schema ID overflow");
    assert_eq!(with(11, number(1)), "table is corrupt: metadata text has invalid type");
}

fn snapshot_cells() -> Vec<Cell> {
    vec![
        Cell::Null,
        number(3),
        number(2),
        number(1),
        number(0),
        number(0),
        words("append"),
        number(77),
        words("summary"),
        words("metadata"),
    ]
}

#[test]
fn a_snapshot_row_is_refused_for_what_is_wrong_with_it() {
    let profile = "table is corrupt: snapshot is outside the append-only unpartitioned profile";
    // The rules read a summary as a text, where an object is asked for.
    assert_eq!(message(read_snapshot(&Rules, id(9), &vec![snapshot_cells()])), profile);
    let with = |at: usize, cell: Cell| {
        let mut row = snapshot_cells();
        row[at] = cell;
        message(read_snapshot(&Rules, id(9), &vec![row]))
    };
    assert_eq!(with(0, blob(0)), "table is corrupt: nil identifier");
    assert_eq!(with(0, words("x")), "table is corrupt: snapshot ID");
    assert_eq!(with(1, number(0)), "table is corrupt: nonpositive sequence");
    assert_eq!(with(2, number(-1)), "table is corrupt: negative integer");
    assert_eq!(with(5, number(1 << 32)), "table is corrupt: sort ID");
    assert_eq!(with(8, Cell::Null), "table is corrupt: summary");
    assert!(matches!(
        read_snapshot(&Rules, id(9), &vec![]),
        Err(RuntimeError::SnapshotNotFound)
    ));
    assert_eq!(read_sequence(&Rules, 3, &vec![vec![blob(4)]]).unwrap(), id(4));
    assert_eq!(
        message(read_sequence(&Rules, 3, &vec![vec![blob(0)]])),
        "table is corrupt: nil identifier"
    );
}

#[test]
fn a_schema_is_refused_for_the_row_that_is_wrong() {
    let header = vec![vec![Cell::Null, Cell::Null]];
    let load = |fields: Vec<Vec<Cell>>| message(load_schema(&Rules, 1, &header, &fields, &vec![]));
    let twice = vec![field_row(1, Cell::Null, "a", 0), field_row(1, Cell::Null, "b", 1)];
    assert_eq!(load(twice), "table is corrupt: duplicate normalized field ID");
    let mut default = field_row(1, Cell::Null, "a", 0);
    default[7] = words("bad");
    assert_eq!(load(vec![default]), "table is corrupt: bad scalar");
    let three = (0..3).map(|n| field_row(n + 1, Cell::Null, "a", n)).collect();
    assert_eq!(load(three), "table is corrupt: three fields");
    let one = vec![field_row(1, Cell::Null, "a", 0)];
    let identifiers = vec![vec![number(1), number(1)]];
    assert_eq!(
        message(load_schema(&Rules, 1, &header, &one, &identifiers)),
        "table is corrupt: noncontiguous identifier ordinals"
    );
}

#[test]
fn a_batch_is_refused_for_the_row_that_is_wrong() {
    let mut rows = live_rows(&[5, 6]);
    rows[1][0] = blob(0);
    assert_eq!(message(branch_batch(&Rules, &rows, 3)), "table is corrupt: nil identifier");
    let mut rows = live_rows(&[5, 6]);
    rows[0][1] = words("../x");
    assert_eq!(message(branch_batch(&Rules, &rows, 3)), "table is corrupt: unsafe address");
    let mut rows = live_rows(&[5]);
    rows[0][7] = number(1 << 32);
    assert_eq!(message(branch_batch(&Rules, &rows, 3)), "table is corrupt: schema ID");
}

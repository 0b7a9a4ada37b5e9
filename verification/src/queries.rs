//! The queries that list files, with their parameters.
use crate::cells::{cells_view, Cell, CellView};
use crate::ranges::{Bound, CanonicalRange};
use crate::text::{append_decimal, decimal};
use vstd::prelude::*;
use vstd::string::*;

verus! {

/// The columns of a live file, and the tables that they come from.
pub open spec fn branch_source() -> Seq<char> {
    "SELECT f.file_id,f.uri,f.file_format,f.file_size_bytes,f.record_count,f.content_sha256,f.file_sequence_number,f.schema_id,f.file_kind,f.object_identity,f.partition_spec_id,f.sort_order_id,f.encryption_metadata,rf.added_snapshot_id,rf.file_sequence_number,f.created_snapshot_id,f.created_version,s.sequence_number,s.committed_table_version FROM otmp_ref_live_files rf INDEXED BY sqlite_autoindex_otmp_ref_live_files_1 LEFT JOIN otmp_files f ON f.file_id=rf.file_id LEFT JOIN otmp_snapshots s ON s.snapshot_id=f.created_snapshot_id"@
}

fn branch_source_text() -> (text: &'static str)
    ensures
        text@ == branch_source(),
{
    "SELECT f.file_id,f.uri,f.file_format,f.file_size_bytes,f.record_count,f.content_sha256,f.file_sequence_number,f.schema_id,f.file_kind,f.object_identity,f.partition_spec_id,f.sort_order_id,f.encryption_metadata,rf.added_snapshot_id,rf.file_sequence_number,f.created_snapshot_id,f.created_version,s.sequence_number,s.committed_table_version FROM otmp_ref_live_files rf INDEXED BY sqlite_autoindex_otmp_ref_live_files_1 LEFT JOIN otmp_files f ON f.file_id=rf.file_id LEFT JOIN otmp_snapshots s ON s.snapshot_id=f.created_snapshot_id"
}

/// The columns of a changed file, and the tables that they come from.
pub open spec fn history_source() -> Seq<char> {
    "SELECT c.change_kind,f.file_id,f.uri,f.file_format,f.file_size_bytes,f.record_count,f.content_sha256,f.file_sequence_number,f.schema_id,f.file_kind,f.object_identity,f.partition_spec_id,f.sort_order_id,f.encryption_metadata,f.created_snapshot_id,f.created_version FROM otmp_snapshot_file_changes c LEFT JOIN otmp_files f ON f.file_id=c.file_id"@
}

fn history_source_text() -> (text: &'static str)
    ensures
        text@ == history_source(),
{
    "SELECT c.change_kind,f.file_id,f.uri,f.file_format,f.file_size_bytes,f.record_count,f.content_sha256,f.file_sequence_number,f.schema_id,f.file_kind,f.object_identity,f.partition_spec_id,f.sort_order_id,f.encryption_metadata,f.created_snapshot_id,f.created_version FROM otmp_snapshot_file_changes c LEFT JOIN otmp_files f ON f.file_id=c.file_id"
}

/// Holds of a file unless its stored bounds rule out every value of some range.
pub open spec fn range_rejection() -> Seq<char> {
    "NOT EXISTS (SELECT 1 FROM ranges q CROSS JOIN otmp_file_metrics m INDEXED BY sqlite_autoindex_otmp_file_metrics_1 WHERE m.file_id=f.file_id AND m.field_id=q.field_id AND m.ordered_bound_type=q.bound_type AND ((q.lower_value IS NOT NULL AND m.ordered_upper_i64 IS NOT NULL AND (m.ordered_upper_i64<q.lower_value OR (m.ordered_upper_i64=q.lower_value AND q.lower_inclusive=0))) OR (q.upper_value IS NOT NULL AND m.ordered_lower_i64 IS NOT NULL AND (m.ordered_lower_i64>q.upper_value OR (m.ordered_lower_i64=q.upper_value AND q.upper_inclusive=0)))))"@
}

fn range_rejection_text() -> (text: &'static str)
    ensures
        text@ == range_rejection(),
{
    "NOT EXISTS (SELECT 1 FROM ranges q CROSS JOIN otmp_file_metrics m INDEXED BY sqlite_autoindex_otmp_file_metrics_1 WHERE m.file_id=f.file_id AND m.field_id=q.field_id AND m.ordered_bound_type=q.bound_type AND ((q.lower_value IS NOT NULL AND m.ordered_upper_i64 IS NOT NULL AND (m.ordered_upper_i64<q.lower_value OR (m.ordered_upper_i64=q.lower_value AND q.lower_inclusive=0))) OR (q.upper_value IS NOT NULL AND m.ordered_lower_i64 IS NOT NULL AND (m.ordered_lower_i64>q.upper_value OR (m.ordered_lower_i64=q.upper_value AND q.upper_inclusive=0)))))"
}

/// The live files of a branch, from the start or after a file.
pub fn branch_sql(after: bool) -> (sql: String)
    ensures
        sql@ == branch_source() + if after {
            " WHERE rf.ref_name=?1 AND rf.file_id>?2 ORDER BY rf.file_id LIMIT ?3"@
        } else {
            " WHERE rf.ref_name=?1 ORDER BY rf.file_id LIMIT ?2"@
        },
{
    let mut sql = branch_source_text().to_owned();
    if after {
        sql.append(" WHERE rf.ref_name=?1 AND rf.file_id>?2 ORDER BY rf.file_id LIMIT ?3");
    } else {
        sql.append(" WHERE rf.ref_name=?1 ORDER BY rf.file_id LIMIT ?2");
    }
    sql
}

/// The changes of a snapshot.
pub fn historical_sql() -> (sql: String)
    ensures
        sql@ == history_source()
            + " WHERE c.snapshot_id=?1 AND (?2 IS NULL OR c.file_id>?2) ORDER BY c.file_id LIMIT ?3"@,
{
    let mut sql = history_source_text().to_owned();
    sql.append(
        " WHERE c.snapshot_id=?1 AND (?2 IS NULL OR c.file_id>?2) ORDER BY c.file_id LIMIT ?3",
    );
    sql
}

/// A numbered parameter.
pub open spec fn parameter(n: nat) -> Seq<char> {
    "?"@ + decimal(n)
}

fn append_parameter(sql: &mut String, n: u64)
    ensures
        final(sql)@ == old(sql)@ + parameter(n as nat),
{
    sql.append("?");
    append_decimal(sql, n);
    assert(sql@ =~= old(sql)@ + parameter(n as nat));
}

/// The parameters of one range.
pub open spec fn range_row(row: nat) -> Seq<char> {
    "("@ + parameter(row * 6 + 1) + ","@ + parameter(row * 6 + 2) + ","@ + parameter(row * 6 + 3)
        + ","@ + parameter(row * 6 + 4) + ","@ + parameter(row * 6 + 5) + ","@ + parameter(
        row * 6 + 6,
    ) + ")"@
}

fn append_range_row(sql: &mut String, row: u64)
    requires
        row <= 4096,
    ensures
        final(sql)@ == old(sql)@ + range_row(row as nat),
{
    let first: u64 = row * 6 + 1;
    sql.append("(");
    append_parameter(sql, first);
    sql.append(",");
    append_parameter(sql, first + 1);
    sql.append(",");
    append_parameter(sql, first + 2);
    sql.append(",");
    append_parameter(sql, first + 3);
    sql.append(",");
    append_parameter(sql, first + 4);
    sql.append(",");
    append_parameter(sql, first + 5);
    sql.append(")");
    assert(sql@ =~= old(sql)@ + range_row(row as nat));
}

/// The parameters of ranges, separated by commas.
pub open spec fn range_rows(count: nat) -> Seq<char>
    decreases count,
{
    if count == 0 {
        Seq::empty()
    } else if count == 1 {
        range_row(0)
    } else {
        range_rows((count - 1) as nat) + ","@ + range_row((count - 1) as nat)
    }
}

pub open spec fn range_table(count: nat) -> Seq<char> {
    "WITH ranges(field_id,bound_type,lower_value,lower_inclusive,upper_value,upper_inclusive) AS (VALUES "@ + range_rows(count) + ")"@
}

/// The ranges as a table that a query can name.
pub fn range_cte(count: usize) -> (sql: String)
    requires
        count <= 4096,
    ensures
        sql@ == range_table(count as nat),
{
    let mut sql = "WITH ranges(field_id,bound_type,lower_value,lower_inclusive,upper_value,upper_inclusive) AS (VALUES ".to_owned();
    let ghost head = sql@;
    let mut row: usize = 0;
    assert(sql@ =~= head + range_rows(0));
    while row < count
        invariant
            row <= count,
            count <= 4096,
            sql@ == head + range_rows(row as nat),
        decreases count - row,
    {
        let ghost before = sql@;
        if row > 0 {
            sql.append(",");
        }
        append_range_row(&mut sql, row as u64);
        row = row + 1;
        assert(sql@ =~= head + range_rows(row as nat));
    }
    sql.append(")");
    sql
}

/// A bound as two parameters: its value, and whether the value is included.
pub open spec fn bound_cells(bound: Bound<i64>) -> Seq<CellView> {
    match bound {
        Bound::Included(n) => seq![CellView::Integer(n), CellView::Integer(1)],
        Bound::Excluded(n) => seq![CellView::Integer(n), CellView::Integer(0)],
        Bound::Unbounded => seq![CellView::Null, CellView::Integer(1)],
    }
}

pub fn sql_bound(bound: &Bound<i64>) -> (cells: (Cell, Cell))
    ensures
        seq![cells.0@, cells.1@] == bound_cells(*bound),
{
    match bound {
        Bound::Included(n) => (Cell::Integer(*n), Cell::Integer(1)),
        Bound::Excluded(n) => (Cell::Integer(*n), Cell::Integer(0)),
        Bound::Unbounded => (Cell::Null, Cell::Integer(1)),
    }
}

pub open spec fn range_cells(range: CanonicalRange) -> Seq<CellView> {
    seq![
        CellView::Integer(range.field_id as i64),
        CellView::Text(range.range_type.spec_text()),
    ] + bound_cells(range.lower) + bound_cells(range.upper)
}

/// The parameters of ranges, six for each.
pub open spec fn ranges_cells(ranges: Seq<CanonicalRange>) -> Seq<CellView>
    decreases ranges.len(),
{
    if ranges.len() == 0 {
        Seq::empty()
    } else {
        ranges_cells(ranges.drop_last()) + range_cells(ranges.last())
    }
}

pub fn range_params(ranges: &Vec<CanonicalRange>) -> (params: Vec<Cell>)
    ensures
        cells_view(params@) == ranges_cells(ranges@),
        params@.len() == 6 * ranges@.len(),
{
    let mut params: Vec<Cell> = Vec::new();
    let mut i: usize = 0;
    assert(cells_view(params@) =~= ranges_cells(ranges@.take(0)));
    while i < ranges.len()
        invariant
            i <= ranges@.len(),
            params@.len() == 6 * i,
            cells_view(params@) == ranges_cells(ranges@.take(i as int)),
        decreases ranges@.len() - i,
    {
        assert(ranges@.take(i + 1).drop_last() =~= ranges@.take(i as int));
        let ghost before = cells_view(params@);
        let range = &ranges[i];
        let (lower, lower_inclusive) = sql_bound(&range.lower);
        let (upper, upper_inclusive) = sql_bound(&range.upper);
        let ghost low = seq![lower@, lower_inclusive@];
        let ghost high = seq![upper@, upper_inclusive@];
        params.push(Cell::Integer(range.field_id as i64));
        params.push(Cell::Text(range.range_type.as_str().to_owned()));
        params.push(lower);
        params.push(lower_inclusive);
        params.push(upper);
        params.push(upper_inclusive);
        assert(cells_view(params@) =~= before + (seq![
            CellView::Integer(range.field_id as i64),
            CellView::Text(range.range_type.spec_text()),
        ] + low + high));
        i = i + 1;
    }
    assert(ranges@.take(i as int) =~= ranges@);
    params
}

/// The live files of a branch that no range rules out.
pub open spec fn ranged_branch(count: nat, after: bool) -> Seq<char> {
    let branch = count * 6 + 1;
    range_table(count) + " "@ + branch_source() + " WHERE rf.ref_name="@ + parameter(branch) + (
    if after {
        " AND rf.file_id>"@ + parameter(branch + 1)
    } else {
        Seq::empty()
    }) + " AND "@ + range_rejection() + " ORDER BY rf.file_id LIMIT "@ + parameter(
        if after {
            branch + 2
        } else {
            branch + 1
        },
    )
}

pub fn ranged_branch_sql(range_count: usize, after: bool) -> (sql: String)
    requires
        range_count <= 4096,
    ensures
        sql@ == ranged_branch(range_count as nat, after),
{
    let branch: u64 = range_count as u64 * 6 + 1;
    let mut sql = range_cte(range_count);
    sql.append(" ");
    sql.append(branch_source_text());
    sql.append(" WHERE rf.ref_name=");
    append_parameter(&mut sql, branch);
    if after {
        sql.append(" AND rf.file_id>");
        append_parameter(&mut sql, branch + 1);
    }
    sql.append(" AND ");
    sql.append(range_rejection_text());
    sql.append(" ORDER BY rf.file_id LIMIT ");
    append_parameter(
        &mut sql,
        if after {
            branch + 2
        } else {
            branch + 1
        },
    );
    assert(sql@ =~= ranged_branch(range_count as nat, after));
    sql
}

/// The changes of a snapshot without the additions that a range rules out.
pub open spec fn ranged_history(count: nat) -> Seq<char> {
    let snapshot = count * 6 + 1;
    range_table(count) + " "@ + history_source() + " WHERE c.snapshot_id="@ + parameter(snapshot)
        + " AND ("@ + parameter(snapshot + 1) + " IS NULL OR c.file_id>"@ + parameter(snapshot + 1)
        + ") AND (c.change_kind<>'add' OR "@ + range_rejection() + ") ORDER BY c.file_id LIMIT "@
        + parameter(snapshot + 2)
}

pub fn ranged_historical_sql(range_count: usize) -> (sql: String)
    requires
        range_count <= 4096,
    ensures
        sql@ == ranged_history(range_count as nat),
{
    let snapshot: u64 = range_count as u64 * 6 + 1;
    let mut sql = range_cte(range_count);
    sql.append(" ");
    sql.append(history_source_text());
    sql.append(" WHERE c.snapshot_id=");
    append_parameter(&mut sql, snapshot);
    sql.append(" AND (");
    append_parameter(&mut sql, snapshot + 1);
    sql.append(" IS NULL OR c.file_id>");
    append_parameter(&mut sql, snapshot + 1);
    sql.append(") AND (c.change_kind<>'add' OR ");
    sql.append(range_rejection_text());
    sql.append(") ORDER BY c.file_id LIMIT ");
    append_parameter(&mut sql, snapshot + 2);
    assert(sql@ =~= ranged_history(range_count as nat));
    sql
}

/// The parameters of files, each in brackets, separated by commas.
pub open spec fn file_rows(count: nat) -> Seq<char>
    decreases count,
{
    if count == 0 {
        Seq::empty()
    } else if count == 1 {
        "("@ + parameter(2) + ")"@
    } else {
        file_rows((count - 1) as nat) + ","@ + ("("@ + parameter(count + 1) + ")"@)
    }
}

pub open spec fn metric_query(count: nat) -> Seq<char> {
    "WITH requested(file_id) AS (VALUES "@ + file_rows(count)
        + ") SELECT m.file_id,m.field_id,m.column_size_bytes,m.value_count,m.null_count,m.nan_count,m.distinct_count,m.lower_bound_cbor,m.upper_bound_cbor,m.metadata_json FROM requested r CROSS JOIN otmp_file_metrics m INDEXED BY sqlite_autoindex_otmp_file_metrics_1 WHERE m.file_id=r.file_id AND m.field_id=?1"@
}

/// The metrics of one column for some files.
pub fn metric_sql(count: usize) -> (sql: String)
    requires
        count <= 4096,
    ensures
        sql@ == metric_query(count as nat),
{
    let mut sql = "WITH requested(file_id) AS (VALUES ".to_owned();
    let ghost head = sql@;
    let mut i: usize = 0;
    assert(sql@ =~= head + file_rows(0));
    while i < count
        invariant
            i <= count,
            count <= 4096,
            sql@ == head + file_rows(i as nat),
        decreases count - i,
    {
        if i > 0 {
            sql.append(",");
        }
        sql.append("(");
        append_parameter(&mut sql, i as u64 + 2);
        sql.append(")");
        i = i + 1;
        assert(sql@ =~= head + file_rows(i as nat));
    }
    sql.append(
        ") SELECT m.file_id,m.field_id,m.column_size_bytes,m.value_count,m.null_count,m.nan_count,m.distinct_count,m.lower_bound_cbor,m.upper_bound_cbor,m.metadata_json FROM requested r CROSS JOIN otmp_file_metrics m INDEXED BY sqlite_autoindex_otmp_file_metrics_1 WHERE m.file_id=r.file_id AND m.field_id=?1",
    );
    sql
}

} // verus!

//! The rows that listings read: each column of a query, and what is made of it.
use crate::cells::{cells_view, id_refused, Cell, CellView, IdRule};
use crate::error::{ErrorView, RuntimeError};
use crate::hash::{lemma_same_id, Id, Sha256};
use crate::history::{uri_refused, TextCodec};
use crate::queries::{branch_source, file_rows, history_source, metric_sql};
use crate::reader_rows::{
    address_refused, branch_file, decode_metric, historical_file, ReaderFile, ReaderMetric,
    ScalarCodec, SnapshotPoint,
};
use crate::tables::{ChangeRow, FileRecord, LiveRow, MetricRecord, SnapshotRecord};
use vstd::prelude::*;

verus! {

pub open spec fn blob(bytes: Seq<u8>) -> CellView {
    CellView::Blob(bytes)
}

pub open spec fn hash_cell(hash: Option<Sha256>) -> CellView {
    match hash {
        None => CellView::Null,
        Some(hash) => CellView::Blob(hash@),
    }
}

pub open spec fn text_cell(text: Option<String>) -> CellView {
    match text {
        None => CellView::Null,
        Some(text) => CellView::Text(text@),
    }
}

pub open spec fn number_cell(number: Option<i64>) -> CellView {
    match number {
        None => CellView::Null,
        Some(n) => CellView::Integer(n),
    }
}

pub open spec fn bytes_cell(bytes: Option<Vec<u8>>) -> CellView {
    match bytes {
        None => CellView::Null,
        Some(bytes) => CellView::Blob(bytes@),
    }
}

/// The row of a live file: each column by its name in a query, and its value.
pub open spec fn live_row(file: FileRecord, live: LiveRow, snapshot: SnapshotRecord) -> Seq<
    (Seq<char>, CellView),
> {
    seq![
        ("f.file_id"@, blob(file.file_id@)),
        ("f.uri"@, CellView::Text(file.uri@)),
        ("f.file_format"@, CellView::Text(file.file_format@)),
        ("f.file_size_bytes"@, CellView::Integer(file.file_size_bytes)),
        ("f.record_count"@, CellView::Integer(file.record_count)),
        ("f.content_sha256"@, hash_cell(file.content_sha256)),
        ("f.file_sequence_number"@, CellView::Integer(file.file_sequence_number)),
        ("f.schema_id"@, CellView::Integer(file.schema_id)),
        ("f.file_kind"@, CellView::Text(file.file_kind@)),
        ("f.object_identity"@, text_cell(file.object_identity)),
        ("f.partition_spec_id"@, CellView::Integer(file.partition_spec_id)),
        ("f.sort_order_id"@, number_cell(file.sort_order_id)),
        ("f.encryption_metadata"@, bytes_cell(file.encryption_metadata)),
        ("rf.added_snapshot_id"@, blob(live.added_snapshot_id@)),
        ("rf.file_sequence_number"@, CellView::Integer(live.file_sequence_number)),
        ("f.created_snapshot_id"@, blob(file.created_snapshot_id@)),
        ("f.created_version"@, CellView::Integer(file.created_version)),
        ("s.sequence_number"@, CellView::Integer(snapshot.row.sequence_number)),
        ("s.committed_table_version"@, CellView::Integer(snapshot.committed_table_version)),
    ]
}

/// The row of a file that a snapshot changed.
pub open spec fn changed_row(change: ChangeRow, file: FileRecord) -> Seq<(Seq<char>, CellView)> {
    seq![
        ("c.change_kind"@, CellView::Text(change.change_kind@)),
        ("f.file_id"@, blob(file.file_id@)),
        ("f.uri"@, CellView::Text(file.uri@)),
        ("f.file_format"@, CellView::Text(file.file_format@)),
        ("f.file_size_bytes"@, CellView::Integer(file.file_size_bytes)),
        ("f.record_count"@, CellView::Integer(file.record_count)),
        ("f.content_sha256"@, hash_cell(file.content_sha256)),
        ("f.file_sequence_number"@, CellView::Integer(file.file_sequence_number)),
        ("f.schema_id"@, CellView::Integer(file.schema_id)),
        ("f.file_kind"@, CellView::Text(file.file_kind@)),
        ("f.object_identity"@, text_cell(file.object_identity)),
        ("f.partition_spec_id"@, CellView::Integer(file.partition_spec_id)),
        ("f.sort_order_id"@, number_cell(file.sort_order_id)),
        ("f.encryption_metadata"@, bytes_cell(file.encryption_metadata)),
        ("f.created_snapshot_id"@, blob(file.created_snapshot_id@)),
        ("f.created_version"@, CellView::Integer(file.created_version)),
    ]
}

/// The row of a metric.
pub open spec fn metric_row(metric: MetricRecord) -> Seq<(Seq<char>, CellView)> {
    seq![
        ("m.file_id"@, blob(metric.file_id@)),
        ("m.field_id"@, CellView::Integer(metric.field_id)),
        ("m.column_size_bytes"@, number_cell(metric.column_size_bytes)),
        ("m.value_count"@, number_cell(metric.value_count)),
        ("m.null_count"@, number_cell(metric.null_count)),
        ("m.nan_count"@, number_cell(metric.nan_count)),
        ("m.distinct_count"@, number_cell(metric.distinct_count)),
        ("m.lower_bound_cbor"@, bytes_cell(metric.lower_bound_cbor)),
        ("m.upper_bound_cbor"@, bytes_cell(metric.upper_bound_cbor)),
        ("m.metadata_json"@, CellView::Text(metric.metadata_json@)),
    ]
}

/// The names of a row's columns, separated by commas.
pub open spec fn names(row: Seq<(Seq<char>, CellView)>) -> Seq<char>
    decreases row.len(),
{
    if row.len() == 0 {
        Seq::empty()
    } else if row.len() == 1 {
        row[0].0
    } else {
        names(row.drop_last()) + ","@ + row.last().0
    }
}

/// The values of a row.
pub open spec fn values(row: Seq<(Seq<char>, CellView)>) -> Seq<CellView> {
    Seq::new(row.len(), |i: int| row[i].1)
}

proof fn lemma_names(row: Seq<(Seq<char>, CellView)>, n: int)
    requires
        1 <= n < row.len(),
    ensures
        names(row.take(n + 1)) == names(row.take(n)) + ","@ + row[n].0,
{
    assert(row.take(n + 1).drop_last() =~= row.take(n));
}

proof fn lemma_three(text: Seq<char>, a: int, b: int, c: int, d: int)
    requires
        0 <= a <= b <= c <= d <= text.len(),
    ensures
        text.subrange(a, b) + text.subrange(b, c) + text.subrange(c, d) == text.subrange(a, d),
{
    assert(text.subrange(a, b) + text.subrange(b, c) + text.subrange(c, d) =~= text.subrange(a, d));
}

spec fn live_names() -> Seq<char> {
    let s0 = "f.file_id"@;
    let s1 = s0 + ","@ + "f.uri"@;
    let s2 = s1 + ","@ + "f.file_format"@;
    let s3 = s2 + ","@ + "f.file_size_bytes"@;
    let s4 = s3 + ","@ + "f.record_count"@;
    let s5 = s4 + ","@ + "f.content_sha256"@;
    let s6 = s5 + ","@ + "f.file_sequence_number"@;
    let s7 = s6 + ","@ + "f.schema_id"@;
    let s8 = s7 + ","@ + "f.file_kind"@;
    let s9 = s8 + ","@ + "f.object_identity"@;
    let s10 = s9 + ","@ + "f.partition_spec_id"@;
    let s11 = s10 + ","@ + "f.sort_order_id"@;
    let s12 = s11 + ","@ + "f.encryption_metadata"@;
    let s13 = s12 + ","@ + "rf.added_snapshot_id"@;
    let s14 = s13 + ","@ + "rf.file_sequence_number"@;
    let s15 = s14 + ","@ + "f.created_snapshot_id"@;
    let s16 = s15 + ","@ + "f.created_version"@;
    let s17 = s16 + ","@ + "s.sequence_number"@;
    let s18 = s17 + ","@ + "s.committed_table_version"@;
    s18
}

#[verifier::rlimit(60)]
#[verifier::spinoff_prover]
proof fn lemma_live_text()
    ensures
        "SELECT f.file_id,f.uri,f.file_format,f.file_size_bytes,f.record_count,f.content_sha256,f.file_sequence_number,f.schema_id,f.file_kind,f.object_identity,f.partition_spec_id,f.sort_order_id,f.encryption_metadata,rf.added_snapshot_id,rf.file_sequence_number,f.created_snapshot_id,f.created_version,s.sequence_number,s.committed_table_version FROM otmp_ref_live_files rf INDEXED BY sqlite_autoindex_otmp_ref_live_files_1 LEFT JOIN otmp_files f ON f.file_id=rf.file_id LEFT JOIN otmp_snapshots s ON s.snapshot_id=f.created_snapshot_id"@ == "SELECT "@ + live_names() + " FROM otmp_ref_live_files rf INDEXED BY sqlite_autoindex_otmp_ref_live_files_1 LEFT JOIN otmp_files f ON f.file_id=rf.file_id LEFT JOIN otmp_snapshots s ON s.snapshot_id=f.created_snapshot_id"@,
{
    let big = "SELECT f.file_id,f.uri,f.file_format,f.file_size_bytes,f.record_count,f.content_sha256,f.file_sequence_number,f.schema_id,f.file_kind,f.object_identity,f.partition_spec_id,f.sort_order_id,f.encryption_metadata,rf.added_snapshot_id,rf.file_sequence_number,f.created_snapshot_id,f.created_version,s.sequence_number,s.committed_table_version FROM otmp_ref_live_files rf INDEXED BY sqlite_autoindex_otmp_ref_live_files_1 LEFT JOIN otmp_files f ON f.file_id=rf.file_id LEFT JOIN otmp_snapshots s ON s.snapshot_id=f.created_snapshot_id"@;
    reveal_strlit("SELECT f.file_id,f.uri,f.file_format,f.file_size_bytes,f.record_count,f.content_sha256,f.file_sequence_number,f.schema_id,f.file_kind,f.object_identity,f.partition_spec_id,f.sort_order_id,f.encryption_metadata,rf.added_snapshot_id,rf.file_sequence_number,f.created_snapshot_id,f.created_version,s.sequence_number,s.committed_table_version FROM otmp_ref_live_files rf INDEXED BY sqlite_autoindex_otmp_ref_live_files_1 LEFT JOIN otmp_files f ON f.file_id=rf.file_id LEFT JOIN otmp_snapshots s ON s.snapshot_id=f.created_snapshot_id");
    assert(big.subrange(0, 7) =~= "SELECT "@) by {
        reveal_strlit("SELECT ");
    }
    assert(big.subrange(7, 16) =~= "f.file_id"@) by {
        reveal_strlit("f.file_id");
    }
    let s0 = "f.file_id"@;
    assert(big.subrange(16, 17) =~= ","@) by {
        reveal_strlit(",");
    }
    assert(big.subrange(17, 22) =~= "f.uri"@) by {
        reveal_strlit("f.uri");
    }
    let s1 = s0 + ","@ + "f.uri"@;
    assert(s1 == big.subrange(7, 22)) by {
        lemma_three(big, 7, 16, 17, 22);
    }
    assert(big.subrange(22, 23) =~= ","@) by {
        reveal_strlit(",");
    }
    assert(big.subrange(23, 36) =~= "f.file_format"@) by {
        reveal_strlit("f.file_format");
    }
    let s2 = s1 + ","@ + "f.file_format"@;
    assert(s2 == big.subrange(7, 36)) by {
        lemma_three(big, 7, 22, 23, 36);
    }
    assert(big.subrange(36, 37) =~= ","@) by {
        reveal_strlit(",");
    }
    assert(big.subrange(37, 54) =~= "f.file_size_bytes"@) by {
        reveal_strlit("f.file_size_bytes");
    }
    let s3 = s2 + ","@ + "f.file_size_bytes"@;
    assert(s3 == big.subrange(7, 54)) by {
        lemma_three(big, 7, 36, 37, 54);
    }
    assert(big.subrange(54, 55) =~= ","@) by {
        reveal_strlit(",");
    }
    assert(big.subrange(55, 69) =~= "f.record_count"@) by {
        reveal_strlit("f.record_count");
    }
    let s4 = s3 + ","@ + "f.record_count"@;
    assert(s4 == big.subrange(7, 69)) by {
        lemma_three(big, 7, 54, 55, 69);
    }
    assert(big.subrange(69, 70) =~= ","@) by {
        reveal_strlit(",");
    }
    assert(big.subrange(70, 86) =~= "f.content_sha256"@) by {
        reveal_strlit("f.content_sha256");
    }
    let s5 = s4 + ","@ + "f.content_sha256"@;
    assert(s5 == big.subrange(7, 86)) by {
        lemma_three(big, 7, 69, 70, 86);
    }
    assert(big.subrange(86, 87) =~= ","@) by {
        reveal_strlit(",");
    }
    assert(big.subrange(87, 109) =~= "f.file_sequence_number"@) by {
        reveal_strlit("f.file_sequence_number");
    }
    let s6 = s5 + ","@ + "f.file_sequence_number"@;
    assert(s6 == big.subrange(7, 109)) by {
        lemma_three(big, 7, 86, 87, 109);
    }
    assert(big.subrange(109, 110) =~= ","@) by {
        reveal_strlit(",");
    }
    assert(big.subrange(110, 121) =~= "f.schema_id"@) by {
        reveal_strlit("f.schema_id");
    }
    let s7 = s6 + ","@ + "f.schema_id"@;
    assert(s7 == big.subrange(7, 121)) by {
        lemma_three(big, 7, 109, 110, 121);
    }
    assert(big.subrange(121, 122) =~= ","@) by {
        reveal_strlit(",");
    }
    assert(big.subrange(122, 133) =~= "f.file_kind"@) by {
        reveal_strlit("f.file_kind");
    }
    let s8 = s7 + ","@ + "f.file_kind"@;
    assert(s8 == big.subrange(7, 133)) by {
        lemma_three(big, 7, 121, 122, 133);
    }
    assert(big.subrange(133, 134) =~= ","@) by {
        reveal_strlit(",");
    }
    assert(big.subrange(134, 151) =~= "f.object_identity"@) by {
        reveal_strlit("f.object_identity");
    }
    let s9 = s8 + ","@ + "f.object_identity"@;
    assert(s9 == big.subrange(7, 151)) by {
        lemma_three(big, 7, 133, 134, 151);
    }
    assert(big.subrange(151, 152) =~= ","@) by {
        reveal_strlit(",");
    }
    assert(big.subrange(152, 171) =~= "f.partition_spec_id"@) by {
        reveal_strlit("f.partition_spec_id");
    }
    let s10 = s9 + ","@ + "f.partition_spec_id"@;
    assert(s10 == big.subrange(7, 171)) by {
        lemma_three(big, 7, 151, 152, 171);
    }
    assert(big.subrange(171, 172) =~= ","@) by {
        reveal_strlit(",");
    }
    assert(big.subrange(172, 187) =~= "f.sort_order_id"@) by {
        reveal_strlit("f.sort_order_id");
    }
    let s11 = s10 + ","@ + "f.sort_order_id"@;
    assert(s11 == big.subrange(7, 187)) by {
        lemma_three(big, 7, 171, 172, 187);
    }
    assert(big.subrange(187, 188) =~= ","@) by {
        reveal_strlit(",");
    }
    assert(big.subrange(188, 209) =~= "f.encryption_metadata"@) by {
        reveal_strlit("f.encryption_metadata");
    }
    let s12 = s11 + ","@ + "f.encryption_metadata"@;
    assert(s12 == big.subrange(7, 209)) by {
        lemma_three(big, 7, 187, 188, 209);
    }
    assert(big.subrange(209, 210) =~= ","@) by {
        reveal_strlit(",");
    }
    assert(big.subrange(210, 230) =~= "rf.added_snapshot_id"@) by {
        reveal_strlit("rf.added_snapshot_id");
    }
    let s13 = s12 + ","@ + "rf.added_snapshot_id"@;
    assert(s13 == big.subrange(7, 230)) by {
        lemma_three(big, 7, 209, 210, 230);
    }
    assert(big.subrange(230, 231) =~= ","@) by {
        reveal_strlit(",");
    }
    assert(big.subrange(231, 254) =~= "rf.file_sequence_number"@) by {
        reveal_strlit("rf.file_sequence_number");
    }
    let s14 = s13 + ","@ + "rf.file_sequence_number"@;
    assert(s14 == big.subrange(7, 254)) by {
        lemma_three(big, 7, 230, 231, 254);
    }
    assert(big.subrange(254, 255) =~= ","@) by {
        reveal_strlit(",");
    }
    assert(big.subrange(255, 276) =~= "f.created_snapshot_id"@) by {
        reveal_strlit("f.created_snapshot_id");
    }
    let s15 = s14 + ","@ + "f.created_snapshot_id"@;
    assert(s15 == big.subrange(7, 276)) by {
        lemma_three(big, 7, 254, 255, 276);
    }
    assert(big.subrange(276, 277) =~= ","@) by {
        reveal_strlit(",");
    }
    assert(big.subrange(277, 294) =~= "f.created_version"@) by {
        reveal_strlit("f.created_version");
    }
    let s16 = s15 + ","@ + "f.created_version"@;
    assert(s16 == big.subrange(7, 294)) by {
        lemma_three(big, 7, 276, 277, 294);
    }
    assert(big.subrange(294, 295) =~= ","@) by {
        reveal_strlit(",");
    }
    assert(big.subrange(295, 312) =~= "s.sequence_number"@) by {
        reveal_strlit("s.sequence_number");
    }
    let s17 = s16 + ","@ + "s.sequence_number"@;
    assert(s17 == big.subrange(7, 312)) by {
        lemma_three(big, 7, 294, 295, 312);
    }
    assert(big.subrange(312, 313) =~= ","@) by {
        reveal_strlit(",");
    }
    assert(big.subrange(313, 338) =~= "s.committed_table_version"@) by {
        reveal_strlit("s.committed_table_version");
    }
    let s18 = s17 + ","@ + "s.committed_table_version"@;
    assert(s18 == big.subrange(7, 338)) by {
        lemma_three(big, 7, 312, 313, 338);
    }
    assert(live_names() == s18);
    assert(big.subrange(338, 529) =~= " FROM otmp_ref_live_files rf INDEXED BY sqlite_autoindex_otmp_ref_live_files_1 LEFT JOIN otmp_files f ON f.file_id=rf.file_id LEFT JOIN otmp_snapshots s ON s.snapshot_id=f.created_snapshot_id"@) by {
        reveal_strlit(" FROM otmp_ref_live_files rf INDEXED BY sqlite_autoindex_otmp_ref_live_files_1 LEFT JOIN otmp_files f ON f.file_id=rf.file_id LEFT JOIN otmp_snapshots s ON s.snapshot_id=f.created_snapshot_id");
    }
    lemma_three(big, 0, 7, 338, 529);
    assert(big.subrange(0, 529) =~= big);
}

proof fn lemma_live_names(file: FileRecord, live: LiveRow, snapshot: SnapshotRecord)
    ensures
        names(live_row(file, live, snapshot)) == live_names(),
{
    let row = live_row(file, live, snapshot);
    let s0 = "f.file_id"@;
    assert(names(row.take(1)) == s0);
    let s1 = s0 + ","@ + "f.uri"@;
    lemma_names(row, 1);
    assert(names(row.take(2)) == s1);
    let s2 = s1 + ","@ + "f.file_format"@;
    lemma_names(row, 2);
    assert(names(row.take(3)) == s2);
    let s3 = s2 + ","@ + "f.file_size_bytes"@;
    lemma_names(row, 3);
    assert(names(row.take(4)) == s3);
    let s4 = s3 + ","@ + "f.record_count"@;
    lemma_names(row, 4);
    assert(names(row.take(5)) == s4);
    let s5 = s4 + ","@ + "f.content_sha256"@;
    lemma_names(row, 5);
    assert(names(row.take(6)) == s5);
    let s6 = s5 + ","@ + "f.file_sequence_number"@;
    lemma_names(row, 6);
    assert(names(row.take(7)) == s6);
    let s7 = s6 + ","@ + "f.schema_id"@;
    lemma_names(row, 7);
    assert(names(row.take(8)) == s7);
    let s8 = s7 + ","@ + "f.file_kind"@;
    lemma_names(row, 8);
    assert(names(row.take(9)) == s8);
    let s9 = s8 + ","@ + "f.object_identity"@;
    lemma_names(row, 9);
    assert(names(row.take(10)) == s9);
    let s10 = s9 + ","@ + "f.partition_spec_id"@;
    lemma_names(row, 10);
    assert(names(row.take(11)) == s10);
    let s11 = s10 + ","@ + "f.sort_order_id"@;
    lemma_names(row, 11);
    assert(names(row.take(12)) == s11);
    let s12 = s11 + ","@ + "f.encryption_metadata"@;
    lemma_names(row, 12);
    assert(names(row.take(13)) == s12);
    let s13 = s12 + ","@ + "rf.added_snapshot_id"@;
    lemma_names(row, 13);
    assert(names(row.take(14)) == s13);
    let s14 = s13 + ","@ + "rf.file_sequence_number"@;
    lemma_names(row, 14);
    assert(names(row.take(15)) == s14);
    let s15 = s14 + ","@ + "f.created_snapshot_id"@;
    lemma_names(row, 15);
    assert(names(row.take(16)) == s15);
    let s16 = s15 + ","@ + "f.created_version"@;
    lemma_names(row, 16);
    assert(names(row.take(17)) == s16);
    let s17 = s16 + ","@ + "s.sequence_number"@;
    lemma_names(row, 17);
    assert(names(row.take(18)) == s17);
    let s18 = s17 + ","@ + "s.committed_table_version"@;
    lemma_names(row, 18);
    assert(names(row.take(19)) == s18);
    assert(row.take(19) =~= row);
}

spec fn changed_names() -> Seq<char> {
    let s0 = "c.change_kind"@;
    let s1 = s0 + ","@ + "f.file_id"@;
    let s2 = s1 + ","@ + "f.uri"@;
    let s3 = s2 + ","@ + "f.file_format"@;
    let s4 = s3 + ","@ + "f.file_size_bytes"@;
    let s5 = s4 + ","@ + "f.record_count"@;
    let s6 = s5 + ","@ + "f.content_sha256"@;
    let s7 = s6 + ","@ + "f.file_sequence_number"@;
    let s8 = s7 + ","@ + "f.schema_id"@;
    let s9 = s8 + ","@ + "f.file_kind"@;
    let s10 = s9 + ","@ + "f.object_identity"@;
    let s11 = s10 + ","@ + "f.partition_spec_id"@;
    let s12 = s11 + ","@ + "f.sort_order_id"@;
    let s13 = s12 + ","@ + "f.encryption_metadata"@;
    let s14 = s13 + ","@ + "f.created_snapshot_id"@;
    let s15 = s14 + ","@ + "f.created_version"@;
    s15
}

#[verifier::rlimit(60)]
#[verifier::spinoff_prover]
proof fn lemma_changed_text()
    ensures
        "SELECT c.change_kind,f.file_id,f.uri,f.file_format,f.file_size_bytes,f.record_count,f.content_sha256,f.file_sequence_number,f.schema_id,f.file_kind,f.object_identity,f.partition_spec_id,f.sort_order_id,f.encryption_metadata,f.created_snapshot_id,f.created_version FROM otmp_snapshot_file_changes c LEFT JOIN otmp_files f ON f.file_id=c.file_id"@ == "SELECT "@ + changed_names() + " FROM otmp_snapshot_file_changes c LEFT JOIN otmp_files f ON f.file_id=c.file_id"@,
{
    let big = "SELECT c.change_kind,f.file_id,f.uri,f.file_format,f.file_size_bytes,f.record_count,f.content_sha256,f.file_sequence_number,f.schema_id,f.file_kind,f.object_identity,f.partition_spec_id,f.sort_order_id,f.encryption_metadata,f.created_snapshot_id,f.created_version FROM otmp_snapshot_file_changes c LEFT JOIN otmp_files f ON f.file_id=c.file_id"@;
    reveal_strlit("SELECT c.change_kind,f.file_id,f.uri,f.file_format,f.file_size_bytes,f.record_count,f.content_sha256,f.file_sequence_number,f.schema_id,f.file_kind,f.object_identity,f.partition_spec_id,f.sort_order_id,f.encryption_metadata,f.created_snapshot_id,f.created_version FROM otmp_snapshot_file_changes c LEFT JOIN otmp_files f ON f.file_id=c.file_id");
    assert(big.subrange(0, 7) =~= "SELECT "@) by {
        reveal_strlit("SELECT ");
    }
    assert(big.subrange(7, 20) =~= "c.change_kind"@) by {
        reveal_strlit("c.change_kind");
    }
    let s0 = "c.change_kind"@;
    assert(big.subrange(20, 21) =~= ","@) by {
        reveal_strlit(",");
    }
    assert(big.subrange(21, 30) =~= "f.file_id"@) by {
        reveal_strlit("f.file_id");
    }
    let s1 = s0 + ","@ + "f.file_id"@;
    assert(s1 == big.subrange(7, 30)) by {
        lemma_three(big, 7, 20, 21, 30);
    }
    assert(big.subrange(30, 31) =~= ","@) by {
        reveal_strlit(",");
    }
    assert(big.subrange(31, 36) =~= "f.uri"@) by {
        reveal_strlit("f.uri");
    }
    let s2 = s1 + ","@ + "f.uri"@;
    assert(s2 == big.subrange(7, 36)) by {
        lemma_three(big, 7, 30, 31, 36);
    }
    assert(big.subrange(36, 37) =~= ","@) by {
        reveal_strlit(",");
    }
    assert(big.subrange(37, 50) =~= "f.file_format"@) by {
        reveal_strlit("f.file_format");
    }
    let s3 = s2 + ","@ + "f.file_format"@;
    assert(s3 == big.subrange(7, 50)) by {
        lemma_three(big, 7, 36, 37, 50);
    }
    assert(big.subrange(50, 51) =~= ","@) by {
        reveal_strlit(",");
    }
    assert(big.subrange(51, 68) =~= "f.file_size_bytes"@) by {
        reveal_strlit("f.file_size_bytes");
    }
    let s4 = s3 + ","@ + "f.file_size_bytes"@;
    assert(s4 == big.subrange(7, 68)) by {
        lemma_three(big, 7, 50, 51, 68);
    }
    assert(big.subrange(68, 69) =~= ","@) by {
        reveal_strlit(",");
    }
    assert(big.subrange(69, 83) =~= "f.record_count"@) by {
        reveal_strlit("f.record_count");
    }
    let s5 = s4 + ","@ + "f.record_count"@;
    assert(s5 == big.subrange(7, 83)) by {
        lemma_three(big, 7, 68, 69, 83);
    }
    assert(big.subrange(83, 84) =~= ","@) by {
        reveal_strlit(",");
    }
    assert(big.subrange(84, 100) =~= "f.content_sha256"@) by {
        reveal_strlit("f.content_sha256");
    }
    let s6 = s5 + ","@ + "f.content_sha256"@;
    assert(s6 == big.subrange(7, 100)) by {
        lemma_three(big, 7, 83, 84, 100);
    }
    assert(big.subrange(100, 101) =~= ","@) by {
        reveal_strlit(",");
    }
    assert(big.subrange(101, 123) =~= "f.file_sequence_number"@) by {
        reveal_strlit("f.file_sequence_number");
    }
    let s7 = s6 + ","@ + "f.file_sequence_number"@;
    assert(s7 == big.subrange(7, 123)) by {
        lemma_three(big, 7, 100, 101, 123);
    }
    assert(big.subrange(123, 124) =~= ","@) by {
        reveal_strlit(",");
    }
    assert(big.subrange(124, 135) =~= "f.schema_id"@) by {
        reveal_strlit("f.schema_id");
    }
    let s8 = s7 + ","@ + "f.schema_id"@;
    assert(s8 == big.subrange(7, 135)) by {
        lemma_three(big, 7, 123, 124, 135);
    }
    assert(big.subrange(135, 136) =~= ","@) by {
        reveal_strlit(",");
    }
    assert(big.subrange(136, 147) =~= "f.file_kind"@) by {
        reveal_strlit("f.file_kind");
    }
    let s9 = s8 + ","@ + "f.file_kind"@;
    assert(s9 == big.subrange(7, 147)) by {
        lemma_three(big, 7, 135, 136, 147);
    }
    assert(big.subrange(147, 148) =~= ","@) by {
        reveal_strlit(",");
    }
    assert(big.subrange(148, 165) =~= "f.object_identity"@) by {
        reveal_strlit("f.object_identity");
    }
    let s10 = s9 + ","@ + "f.object_identity"@;
    assert(s10 == big.subrange(7, 165)) by {
        lemma_three(big, 7, 147, 148, 165);
    }
    assert(big.subrange(165, 166) =~= ","@) by {
        reveal_strlit(",");
    }
    assert(big.subrange(166, 185) =~= "f.partition_spec_id"@) by {
        reveal_strlit("f.partition_spec_id");
    }
    let s11 = s10 + ","@ + "f.partition_spec_id"@;
    assert(s11 == big.subrange(7, 185)) by {
        lemma_three(big, 7, 165, 166, 185);
    }
    assert(big.subrange(185, 186) =~= ","@) by {
        reveal_strlit(",");
    }
    assert(big.subrange(186, 201) =~= "f.sort_order_id"@) by {
        reveal_strlit("f.sort_order_id");
    }
    let s12 = s11 + ","@ + "f.sort_order_id"@;
    assert(s12 == big.subrange(7, 201)) by {
        lemma_three(big, 7, 185, 186, 201);
    }
    assert(big.subrange(201, 202) =~= ","@) by {
        reveal_strlit(",");
    }
    assert(big.subrange(202, 223) =~= "f.encryption_metadata"@) by {
        reveal_strlit("f.encryption_metadata");
    }
    let s13 = s12 + ","@ + "f.encryption_metadata"@;
    assert(s13 == big.subrange(7, 223)) by {
        lemma_three(big, 7, 201, 202, 223);
    }
    assert(big.subrange(223, 224) =~= ","@) by {
        reveal_strlit(",");
    }
    assert(big.subrange(224, 245) =~= "f.created_snapshot_id"@) by {
        reveal_strlit("f.created_snapshot_id");
    }
    let s14 = s13 + ","@ + "f.created_snapshot_id"@;
    assert(s14 == big.subrange(7, 245)) by {
        lemma_three(big, 7, 223, 224, 245);
    }
    assert(big.subrange(245, 246) =~= ","@) by {
        reveal_strlit(",");
    }
    assert(big.subrange(246, 263) =~= "f.created_version"@) by {
        reveal_strlit("f.created_version");
    }
    let s15 = s14 + ","@ + "f.created_version"@;
    assert(s15 == big.subrange(7, 263)) by {
        lemma_three(big, 7, 245, 246, 263);
    }
    assert(changed_names() == s15);
    assert(big.subrange(263, 343) =~= " FROM otmp_snapshot_file_changes c LEFT JOIN otmp_files f ON f.file_id=c.file_id"@) by {
        reveal_strlit(" FROM otmp_snapshot_file_changes c LEFT JOIN otmp_files f ON f.file_id=c.file_id");
    }
    lemma_three(big, 0, 7, 263, 343);
    assert(big.subrange(0, 343) =~= big);
}

proof fn lemma_changed_names(change: ChangeRow, file: FileRecord)
    ensures
        names(changed_row(change, file)) == changed_names(),
{
    let row = changed_row(change, file);
    let s0 = "c.change_kind"@;
    assert(names(row.take(1)) == s0);
    let s1 = s0 + ","@ + "f.file_id"@;
    lemma_names(row, 1);
    assert(names(row.take(2)) == s1);
    let s2 = s1 + ","@ + "f.uri"@;
    lemma_names(row, 2);
    assert(names(row.take(3)) == s2);
    let s3 = s2 + ","@ + "f.file_format"@;
    lemma_names(row, 3);
    assert(names(row.take(4)) == s3);
    let s4 = s3 + ","@ + "f.file_size_bytes"@;
    lemma_names(row, 4);
    assert(names(row.take(5)) == s4);
    let s5 = s4 + ","@ + "f.record_count"@;
    lemma_names(row, 5);
    assert(names(row.take(6)) == s5);
    let s6 = s5 + ","@ + "f.content_sha256"@;
    lemma_names(row, 6);
    assert(names(row.take(7)) == s6);
    let s7 = s6 + ","@ + "f.file_sequence_number"@;
    lemma_names(row, 7);
    assert(names(row.take(8)) == s7);
    let s8 = s7 + ","@ + "f.schema_id"@;
    lemma_names(row, 8);
    assert(names(row.take(9)) == s8);
    let s9 = s8 + ","@ + "f.file_kind"@;
    lemma_names(row, 9);
    assert(names(row.take(10)) == s9);
    let s10 = s9 + ","@ + "f.object_identity"@;
    lemma_names(row, 10);
    assert(names(row.take(11)) == s10);
    let s11 = s10 + ","@ + "f.partition_spec_id"@;
    lemma_names(row, 11);
    assert(names(row.take(12)) == s11);
    let s12 = s11 + ","@ + "f.sort_order_id"@;
    lemma_names(row, 12);
    assert(names(row.take(13)) == s12);
    let s13 = s12 + ","@ + "f.encryption_metadata"@;
    lemma_names(row, 13);
    assert(names(row.take(14)) == s13);
    let s14 = s13 + ","@ + "f.created_snapshot_id"@;
    lemma_names(row, 14);
    assert(names(row.take(15)) == s14);
    let s15 = s14 + ","@ + "f.created_version"@;
    lemma_names(row, 15);
    assert(names(row.take(16)) == s15);
    assert(row.take(16) =~= row);
}

spec fn metric_names() -> Seq<char> {
    let s0 = "m.file_id"@;
    let s1 = s0 + ","@ + "m.field_id"@;
    let s2 = s1 + ","@ + "m.column_size_bytes"@;
    let s3 = s2 + ","@ + "m.value_count"@;
    let s4 = s3 + ","@ + "m.null_count"@;
    let s5 = s4 + ","@ + "m.nan_count"@;
    let s6 = s5 + ","@ + "m.distinct_count"@;
    let s7 = s6 + ","@ + "m.lower_bound_cbor"@;
    let s8 = s7 + ","@ + "m.upper_bound_cbor"@;
    let s9 = s8 + ","@ + "m.metadata_json"@;
    s9
}

#[verifier::rlimit(60)]
#[verifier::spinoff_prover]
proof fn lemma_metric_text()
    ensures
        ") SELECT m.file_id,m.field_id,m.column_size_bytes,m.value_count,m.null_count,m.nan_count,m.distinct_count,m.lower_bound_cbor,m.upper_bound_cbor,m.metadata_json FROM requested r CROSS JOIN otmp_file_metrics m INDEXED BY sqlite_autoindex_otmp_file_metrics_1 WHERE m.file_id=r.file_id AND m.field_id=?1"@ == ") SELECT "@ + metric_names() + " FROM requested r CROSS JOIN otmp_file_metrics m INDEXED BY sqlite_autoindex_otmp_file_metrics_1 WHERE m.file_id=r.file_id AND m.field_id=?1"@,
{
    let big = ") SELECT m.file_id,m.field_id,m.column_size_bytes,m.value_count,m.null_count,m.nan_count,m.distinct_count,m.lower_bound_cbor,m.upper_bound_cbor,m.metadata_json FROM requested r CROSS JOIN otmp_file_metrics m INDEXED BY sqlite_autoindex_otmp_file_metrics_1 WHERE m.file_id=r.file_id AND m.field_id=?1"@;
    reveal_strlit(") SELECT m.file_id,m.field_id,m.column_size_bytes,m.value_count,m.null_count,m.nan_count,m.distinct_count,m.lower_bound_cbor,m.upper_bound_cbor,m.metadata_json FROM requested r CROSS JOIN otmp_file_metrics m INDEXED BY sqlite_autoindex_otmp_file_metrics_1 WHERE m.file_id=r.file_id AND m.field_id=?1");
    assert(big.subrange(0, 9) =~= ") SELECT "@) by {
        reveal_strlit(") SELECT ");
    }
    assert(big.subrange(9, 18) =~= "m.file_id"@) by {
        reveal_strlit("m.file_id");
    }
    let s0 = "m.file_id"@;
    assert(big.subrange(18, 19) =~= ","@) by {
        reveal_strlit(",");
    }
    assert(big.subrange(19, 29) =~= "m.field_id"@) by {
        reveal_strlit("m.field_id");
    }
    let s1 = s0 + ","@ + "m.field_id"@;
    assert(s1 == big.subrange(9, 29)) by {
        lemma_three(big, 9, 18, 19, 29);
    }
    assert(big.subrange(29, 30) =~= ","@) by {
        reveal_strlit(",");
    }
    assert(big.subrange(30, 49) =~= "m.column_size_bytes"@) by {
        reveal_strlit("m.column_size_bytes");
    }
    let s2 = s1 + ","@ + "m.column_size_bytes"@;
    assert(s2 == big.subrange(9, 49)) by {
        lemma_three(big, 9, 29, 30, 49);
    }
    assert(big.subrange(49, 50) =~= ","@) by {
        reveal_strlit(",");
    }
    assert(big.subrange(50, 63) =~= "m.value_count"@) by {
        reveal_strlit("m.value_count");
    }
    let s3 = s2 + ","@ + "m.value_count"@;
    assert(s3 == big.subrange(9, 63)) by {
        lemma_three(big, 9, 49, 50, 63);
    }
    assert(big.subrange(63, 64) =~= ","@) by {
        reveal_strlit(",");
    }
    assert(big.subrange(64, 76) =~= "m.null_count"@) by {
        reveal_strlit("m.null_count");
    }
    let s4 = s3 + ","@ + "m.null_count"@;
    assert(s4 == big.subrange(9, 76)) by {
        lemma_three(big, 9, 63, 64, 76);
    }
    assert(big.subrange(76, 77) =~= ","@) by {
        reveal_strlit(",");
    }
    assert(big.subrange(77, 88) =~= "m.nan_count"@) by {
        reveal_strlit("m.nan_count");
    }
    let s5 = s4 + ","@ + "m.nan_count"@;
    assert(s5 == big.subrange(9, 88)) by {
        lemma_three(big, 9, 76, 77, 88);
    }
    assert(big.subrange(88, 89) =~= ","@) by {
        reveal_strlit(",");
    }
    assert(big.subrange(89, 105) =~= "m.distinct_count"@) by {
        reveal_strlit("m.distinct_count");
    }
    let s6 = s5 + ","@ + "m.distinct_count"@;
    assert(s6 == big.subrange(9, 105)) by {
        lemma_three(big, 9, 88, 89, 105);
    }
    assert(big.subrange(105, 106) =~= ","@) by {
        reveal_strlit(",");
    }
    assert(big.subrange(106, 124) =~= "m.lower_bound_cbor"@) by {
        reveal_strlit("m.lower_bound_cbor");
    }
    let s7 = s6 + ","@ + "m.lower_bound_cbor"@;
    assert(s7 == big.subrange(9, 124)) by {
        lemma_three(big, 9, 105, 106, 124);
    }
    assert(big.subrange(124, 125) =~= ","@) by {
        reveal_strlit(",");
    }
    assert(big.subrange(125, 143) =~= "m.upper_bound_cbor"@) by {
        reveal_strlit("m.upper_bound_cbor");
    }
    let s8 = s7 + ","@ + "m.upper_bound_cbor"@;
    assert(s8 == big.subrange(9, 143)) by {
        lemma_three(big, 9, 124, 125, 143);
    }
    assert(big.subrange(143, 144) =~= ","@) by {
        reveal_strlit(",");
    }
    assert(big.subrange(144, 159) =~= "m.metadata_json"@) by {
        reveal_strlit("m.metadata_json");
    }
    let s9 = s8 + ","@ + "m.metadata_json"@;
    assert(s9 == big.subrange(9, 159)) by {
        lemma_three(big, 9, 143, 144, 159);
    }
    assert(metric_names() == s9);
    assert(big.subrange(159, 299) =~= " FROM requested r CROSS JOIN otmp_file_metrics m INDEXED BY sqlite_autoindex_otmp_file_metrics_1 WHERE m.file_id=r.file_id AND m.field_id=?1"@) by {
        reveal_strlit(" FROM requested r CROSS JOIN otmp_file_metrics m INDEXED BY sqlite_autoindex_otmp_file_metrics_1 WHERE m.file_id=r.file_id AND m.field_id=?1");
    }
    lemma_three(big, 0, 9, 159, 299);
    assert(big.subrange(0, 299) =~= big);
}

proof fn lemma_metric_names(metric: MetricRecord)
    ensures
        names(metric_row(metric)) == metric_names(),
{
    let row = metric_row(metric);
    let s0 = "m.file_id"@;
    assert(names(row.take(1)) == s0);
    let s1 = s0 + ","@ + "m.field_id"@;
    lemma_names(row, 1);
    assert(names(row.take(2)) == s1);
    let s2 = s1 + ","@ + "m.column_size_bytes"@;
    lemma_names(row, 2);
    assert(names(row.take(3)) == s2);
    let s3 = s2 + ","@ + "m.value_count"@;
    lemma_names(row, 3);
    assert(names(row.take(4)) == s3);
    let s4 = s3 + ","@ + "m.null_count"@;
    lemma_names(row, 4);
    assert(names(row.take(5)) == s4);
    let s5 = s4 + ","@ + "m.nan_count"@;
    lemma_names(row, 5);
    assert(names(row.take(6)) == s5);
    let s6 = s5 + ","@ + "m.distinct_count"@;
    lemma_names(row, 6);
    assert(names(row.take(7)) == s6);
    let s7 = s6 + ","@ + "m.lower_bound_cbor"@;
    lemma_names(row, 7);
    assert(names(row.take(8)) == s7);
    let s8 = s7 + ","@ + "m.upper_bound_cbor"@;
    lemma_names(row, 8);
    assert(names(row.take(9)) == s8);
    let s9 = s8 + ","@ + "m.metadata_json"@;
    lemma_names(row, 9);
    assert(names(row.take(10)) == s9);
    assert(row.take(10) =~= row);
}

/// The queries for files ask for the columns of a row, in its order, of
/// the tables that hold them.
pub proof fn lemma_queries_ask_for_rows(
    file: FileRecord,
    live: LiveRow,
    snapshot: SnapshotRecord,
    change: ChangeRow,
)
    ensures
        branch_source() == "SELECT "@ + names(live_row(file, live, snapshot))
            + " FROM otmp_ref_live_files rf INDEXED BY sqlite_autoindex_otmp_ref_live_files_1 LEFT JOIN otmp_files f ON f.file_id=rf.file_id LEFT JOIN otmp_snapshots s ON s.snapshot_id=f.created_snapshot_id"@,
        history_source() == "SELECT "@ + names(changed_row(change, file))
            + " FROM otmp_snapshot_file_changes c LEFT JOIN otmp_files f ON f.file_id=c.file_id"@,
{
    lemma_live_text();
    lemma_live_names(file, live, snapshot);
    lemma_changed_text();
    lemma_changed_names(change, file);
}

/// The files that a query for metrics asks for: the parameters behind the first.
pub open spec fn asked_files(count: nat) -> Seq<char>
    decreases count,
{
    if count == 0 {
        Seq::empty()
    } else if count == 1 {
        "(?2)"@
    } else {
        asked_files((count - 1) as nat) + ",("@ + ("?"@ + crate::text::decimal(count + 1)) + ")"@
    }
}

proof fn lemma_asked_files(count: nat)
    ensures
        file_rows(count) == asked_files(count),
    decreases count,
{
    if count == 1 {
        reveal_strlit("(?2)");
        reveal_strlit("(");
        reveal_strlit(")");
        reveal_strlit("?");
        reveal_with_fuel(crate::text::decimal, 2);
        assert(file_rows(1) =~= "(?2)"@);
    } else if count > 1 {
        lemma_asked_files((count - 1) as nat);
        reveal_strlit(",(");
        reveal_strlit(",");
        reveal_strlit("(");
        assert(",("@ =~= ","@ + "("@);
        assert(file_rows(count) =~= asked_files(count));
    }
}

/// A query for metrics asks for the columns of a metric's row, of the files and the
/// field that its parameters name.
pub proof fn lemma_metric_query_asks_for_rows(count: usize, sql: String, metric: MetricRecord)
    requires
        call_ensures(metric_sql, (count,), sql),
    ensures
        sql@ == "WITH requested(file_id) AS (VALUES "@ + asked_files(count as nat) + ") SELECT "@
            + names(metric_row(metric)) + " FROM requested r CROSS JOIN otmp_file_metrics m INDEXED BY sqlite_autoindex_otmp_file_metrics_1 WHERE m.file_id=r.file_id AND m.field_id=?1"@,
{
    lemma_asked_files(count as nat);
    lemma_metric_text();
    lemma_metric_names(metric);
    assert(sql@ =~= "WITH requested(file_id) AS (VALUES "@ + asked_files(count as nat)
        + ") SELECT "@ + names(metric_row(metric)) + " FROM requested r CROSS JOIN otmp_file_metrics m INDEXED BY sqlite_autoindex_otmp_file_metrics_1 WHERE m.file_id=r.file_id AND m.field_id=?1"@);
}

/// A stored file that a listing can give out: data in parquet of a known schema,
/// neither partitioned, sorted nor encrypted, with counts that can be.
pub open spec fn plain(file: FileRecord) -> bool {
    &&& file.file_kind@ == "data"@
    &&& file.file_format@ == "parquet"@
    &&& file.object_identity is None
    &&& file.partition_spec_id == 0
    &&& file.sort_order_id == Some(0i64)
    &&& file.encryption_metadata is None
    &&& file.file_size_bytes >= 0
    &&& file.record_count >= 0
    &&& 0 < file.schema_id <= 0xffff_ffff
}

/// What is given out is what was stored.
pub open spec fn given_out(file: FileRecord, out: ReaderFile) -> bool {
    &&& out.file.file_id == file.file_id
    &&& out.file.uri@ == file.uri@
    &&& out.file.file_format@ == file.file_format@
    &&& out.file.file_size_bytes == file.file_size_bytes
    &&& out.file.record_count == file.record_count
    &&& out.file.content_sha256 == file.content_sha256
    &&& out.file.sequence_number == file.file_sequence_number
    &&& out.schema_id == file.schema_id
}

/// The rules for identifiers and addresses refused one of the file's.
pub open spec fn refused<C: IdRule + TextCodec>(
    codec: C,
    file: FileRecord,
    other: Id,
    e: RuntimeError,
) -> bool {
    ||| id_refused(codec, file.file_id, e)
    ||| id_refused(codec, file.created_snapshot_id, e)
    ||| id_refused(codec, other, e)
    ||| exists|uri: String| uri@ == file.uri@ && #[trigger] uri_refused(codec, uri, e)
}

proof fn lemma_digests(a: Option<Sha256>, b: Option<Sha256>)
    requires
        (match a {
            None => None,
            Some(hash) => Some(hash@),
        }) == (match b {
            None => None::<Seq<u8>>,
            Some(hash) => Some(hash@),
        }),
    ensures
        a == b,
{
    if let Some(x) = a {
        if let Some(y) = b {
            crate::hash::lemma_same_digest(x, y);
        }
    }
}

proof fn lemma_refused<C: IdRule>(codec: C, id: Id, e: RuntimeError)
    requires
        crate::cells::id_fault(codec, CellView::Blob(id@), e),
        id@.len() == 16,
    ensures
        id_refused(codec, id, e),
{
    let other = choose|other: Id|
        crate::cells::id_of(CellView::Blob(id@)) == Ok::<Seq<u8>, ErrorView>(other@)
            && #[trigger] id_refused(codec, other, e);
    lemma_same_id(other, id);
}

/// A live file is given out as it is stored, exactly if it is plain and its three
/// rows agree: the one who made it live also made it, at a version that the table has
/// reached, with one sequence number throughout. Only identifiers and addresses can
/// be refused beyond that.
#[verifier::rlimit(40)]
#[verifier::spinoff_prover]
pub proof fn lemma_live_file_is_given_out<C: IdRule + TextCodec>(
    codec: C,
    file: FileRecord,
    live: LiveRow,
    snapshot: SnapshotRecord,
    row: Vec<Cell>,
    table_version: u64,
    r: Result<ReaderFile, RuntimeError>,
)
    requires
        cells_view(row@) == values(live_row(file, live, snapshot)),
        call_ensures(branch_file::<C>, (&codec, &row, table_version), r),
    ensures
        r matches Ok(out) ==> given_out(file, out),
        ({
            let agree = {
                &&& plain(file)
                &&& file.file_sequence_number > 0
                &&& live.file_sequence_number == file.file_sequence_number
                &&& snapshot.row.sequence_number == file.file_sequence_number
                &&& live.added_snapshot_id == file.created_snapshot_id
                &&& 0 <= file.created_version <= table_version
                &&& snapshot.committed_table_version == file.created_version
            };
            &&& r is Ok ==> agree
            &&& agree && r is Err ==> refused(codec, file, live.added_snapshot_id, r->Err_0)
        }),
{
    let cells = cells_view(row@);
    let all = live_row(file, live, snapshot);
    assert(cells.len() == 19);
    assert forall|i: int| 0 <= i < 19 implies #[trigger] cells[i] == all[i].1 by {}
    assert(file.file_id@.len() == 16 && file.created_snapshot_id@.len() == 16
        && live.added_snapshot_id@.len() == 16);
    match r {
        Ok(out) => {
            lemma_same_id(out.file.file_id, file.file_id);
            lemma_same_id(live.added_snapshot_id, file.created_snapshot_id);
            lemma_digests(out.file.content_sha256, file.content_sha256);
        },
        Err(e) => {
            if crate::cells::id_fault(codec, cells[0], e) {
                lemma_refused(codec, file.file_id, e);
            }
            if crate::cells::id_fault(codec, cells[13], e) {
                lemma_refused(codec, live.added_snapshot_id, e);
            }
            if crate::cells::id_fault(codec, cells[15], e) {
                lemma_refused(codec, file.created_snapshot_id, e);
            }
            if address_refused(codec, cells[1], e) {
                let uri = choose|uri: String|
                    crate::reader_rows::is_text(cells[1], uri@) && #[trigger] uri_refused(
                        codec,
                        uri,
                        e,
                    );
                assert(uri@ == file.uri@);
            }
        },
    }
}

/// A file that a snapshot added is given out as it is stored, exactly if it is plain
/// and the snapshot made it.
#[verifier::rlimit(40)]
#[verifier::spinoff_prover]
pub proof fn lemma_added_file_is_given_out<C: IdRule + TextCodec>(
    codec: C,
    change: ChangeRow,
    file: FileRecord,
    row: Vec<Cell>,
    point: SnapshotPoint,
    r: Result<ReaderFile, RuntimeError>,
)
    requires
        cells_view(row@) == values(changed_row(change, file)),
        call_ensures(historical_file::<C>, (&codec, &row, &point), r),
    ensures
        r matches Ok(out) ==> given_out(file, out),
        ({
            let agree = {
                &&& change.change_kind@ == "add"@
                &&& plain(file)
                &&& file.file_sequence_number == point.sequence_number
                &&& file.created_snapshot_id == point.snapshot_id
                &&& file.created_version == point.committed_table_version
            };
            &&& r is Ok ==> agree
            &&& agree && r is Err ==> refused(codec, file, point.snapshot_id, r->Err_0)
        }),
{
    let cells = cells_view(row@);
    let all = changed_row(change, file);
    assert(cells.len() == 16);
    assert forall|i: int| 0 <= i < 16 implies #[trigger] cells[i] == all[i].1 by {}
    assert(file.file_id@.len() == 16 && file.created_snapshot_id@.len() == 16);
    match r {
        Ok(out) => {
            lemma_same_id(out.file.file_id, file.file_id);
            lemma_same_id(file.created_snapshot_id, point.snapshot_id);
            lemma_digests(out.file.content_sha256, file.content_sha256);
        },
        Err(e) => {
            if crate::cells::id_fault(codec, cells[1], e) {
                lemma_refused(codec, file.file_id, e);
            }
            if crate::cells::id_fault(codec, cells[14], e) {
                lemma_refused(codec, file.created_snapshot_id, e);
            }
            if address_refused(codec, cells[2], e) {
                let uri = choose|uri: String|
                    crate::reader_rows::is_text(cells[2], uri@) && #[trigger] uri_refused(
                        codec,
                        uri,
                        e,
                    );
                assert(uri@ == file.uri@);
            }
        },
    }
}

pub open spec fn same_count(stored: Option<i64>, out: Option<u64>) -> bool {
    match stored {
        None => out is None,
        Some(n) => out matches Some(m) && n == m,
    }
}

/// A metric is given out as it is stored: each count in its place, and a bound exactly
/// where one is stored.
pub proof fn lemma_metric_is_given_out<C: ScalarCodec + TextCodec>(
    codec: C,
    metric: MetricRecord,
    row: Vec<Cell>,
    r: Result<ReaderMetric, RuntimeError>,
)
    requires
        cells_view(row@) == values(metric_row(metric).skip(1)),
        call_ensures(decode_metric::<C>, (&codec, &row), r),
    ensures
        r matches Ok(out) ==> {
            &&& out.field_id == metric.field_id
            &&& same_count(metric.column_size_bytes, out.column_size_bytes)
            &&& same_count(metric.value_count, out.value_count)
            &&& same_count(metric.null_count, out.null_count)
            &&& same_count(metric.nan_count, out.nan_count)
            &&& same_count(metric.distinct_count, out.distinct_count)
            &&& metric.lower_bound_cbor is Some <==> out.lower_bound is Some
            &&& metric.upper_bound_cbor is Some <==> out.upper_bound is Some
            &&& out.lower_bound matches Some(value) ==> exists|bytes: Vec<u8>|
                bytes@ == metric.lower_bound_cbor->0@ && #[trigger] call_ensures(
                    C::decode_scalar,
                    (&codec, &bytes),
                    Ok(value),
                )
            &&& out.upper_bound matches Some(value) ==> exists|bytes: Vec<u8>|
                bytes@ == metric.upper_bound_cbor->0@ && #[trigger] call_ensures(
                    C::decode_scalar,
                    (&codec, &bytes),
                    Ok(value),
                )
        },
{
    let cells = cells_view(row@);
    let all = metric_row(metric).skip(1);
    assert(cells.len() == 9);
    assert forall|i: int| 0 <= i < 9 implies #[trigger] cells[i] == metric_row(metric)[i
        + 1].1 by {
        assert(all[i] == metric_row(metric)[i + 1]);
    }
    if let Ok(out) = r {
        assert(crate::reader_rows::metric_is(codec, cells, out));
        if let Some(value) = out.lower_bound {
            assert(crate::reader_rows::bound_read(codec, cells[6], Ok(value)));
            let bytes = choose|bytes: Vec<u8>|
                crate::cells::blob_of(cells[6]) == Ok::<Seq<u8>, ErrorView>(bytes@)
                    && #[trigger] call_ensures(C::decode_scalar, (&codec, &bytes), Ok(value));
            assert(bytes@ == metric.lower_bound_cbor->0@);
        }
        if let Some(value) = out.upper_bound {
            assert(crate::reader_rows::bound_read(codec, cells[7], Ok(value)));
            let bytes = choose|bytes: Vec<u8>|
                crate::cells::blob_of(cells[7]) == Ok::<Seq<u8>, ErrorView>(bytes@)
                    && #[trigger] call_ensures(C::decode_scalar, (&codec, &bytes), Ok(value));
            assert(bytes@ == metric.upper_bound_cbor->0@);
        }
    }
}

} // verus!

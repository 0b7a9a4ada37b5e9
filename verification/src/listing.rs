//! Batches of a listing: the files of its rows, where it goes on, and metrics.
use crate::cells::{cell_accepted, cells_view, id, id_fault, id_of, Cell, CellView, IdRule};
use crate::error::{corrupt, ErrorView, RuntimeError};
use crate::hash::{lemma_same_id, Id};
use crate::history::TextCodec;
use crate::reader_rows::{
    after_history_batch, branch_file, branch_row_fault, branch_row_ok, decode_metric,
    describes_file, historical_file, history_row_fault, history_row_ok, metric_fault, metric_is,
    metric_position, CursorState, HistoryNext, MetricOperation, ReaderFile, ReaderMetric,
    ScalarCodec, SnapshotPoint,
};
use vstd::prelude::*;

verus! {

/// A row that lists a file of a branch, and the file.
pub open spec fn branch_row_is(row: Seq<CellView>, table_version: u64, file: ReaderFile) -> bool {
    &&& branch_row_ok(row, table_version)
    &&& describes_file(file, row[0], row[1], row[2], row[3], row[4], row[5], row[6], row[7])
}

/// A row that lists a file of a snapshot, and the file.
pub open spec fn history_row_is(
    row: Seq<CellView>,
    point: SnapshotPoint,
    file: ReaderFile,
) -> bool {
    &&& history_row_ok(row, point)
    &&& describes_file(file, row[1], row[2], row[3], row[4], row[5], row[6], row[7], row[8])
}

/// The row at `i` does not list a file of a branch, for this reason, and each row
/// before it does.
pub open spec fn branch_fault_at<C: IdRule + TextCodec>(
    codec: C,
    rows: Seq<Vec<Cell>>,
    i: int,
    table_version: u64,
    e: RuntimeError,
) -> bool {
    &&& branch_row_fault(codec, cells_view(rows[i]@), table_version, e)
    &&& forall|k: int| 0 <= k < i ==> lists_branch((#[trigger] rows[k])@, table_version)
}

pub open spec fn lists_branch(row: Seq<Cell>, table_version: u64) -> bool {
    exists|file: ReaderFile| #[trigger] branch_row_is(cells_view(row), table_version, file)
}

/// The row at `i` does not list a file of a snapshot, for this reason, and each row
/// before it does.
pub open spec fn history_fault_at<C: IdRule + TextCodec>(
    codec: C,
    rows: Seq<Vec<Cell>>,
    i: int,
    point: SnapshotPoint,
    e: RuntimeError,
) -> bool {
    &&& history_row_fault(codec, cells_view(rows[i]@), point, e)
    &&& forall|k: int| 0 <= k < i ==> lists_history((#[trigger] rows[k])@, point)
}

pub open spec fn lists_history(row: Seq<Cell>, point: SnapshotPoint) -> bool {
    exists|file: ReaderFile| #[trigger] history_row_is(cells_view(row), point, file)
}

/// A batch of a branch's files.
#[derive(Debug)]
pub struct BranchBatch {
    pub files: Vec<ReaderFile>,
    /// Where the listing goes on.
    pub next: Option<CursorState>,
}

/// A branch's listing goes on behind the last file of a batch, and ends with an
/// empty one.
pub open spec fn branch_next(files: Seq<ReaderFile>) -> Option<CursorState> {
    if files.len() == 0 {
        None
    } else {
        Some(CursorState::Branch { file: files.last().file.file_id })
    }
}

/// Reads a batch of a branch's files from its rows.
pub fn branch_batch<C: IdRule + TextCodec>(
    codec: &C,
    rows: &Vec<Vec<Cell>>,
    table_version: u64,
) -> (r: Result<BranchBatch, RuntimeError>)
    ensures
        match r {
            Ok(batch) => {
                &&& batch.files@.len() == rows@.len()
                &&& forall|i: int|
                    0 <= i < rows@.len() ==> branch_row_is(
                        cells_view((#[trigger] rows@[i])@),
                        table_version,
                        batch.files@[i],
                    )
                &&& batch.next == branch_next(batch.files@)
            },
            Err(e) => exists|i: int|
                0 <= i < rows@.len() && #[trigger] branch_fault_at(
                    *codec,
                    rows@,
                    i,
                    table_version,
                    e,
                ),
        },
{
    let mut files: Vec<ReaderFile> = Vec::new();
    let mut next: Option<CursorState> = None;
    let mut i: usize = 0;
    while i < rows.len()
        invariant
            i <= rows@.len(),
            files@.len() == i,
            forall|k: int|
                0 <= k < i ==> branch_row_is(
                    cells_view((#[trigger] rows@[k])@),
                    table_version,
                    files@[k],
                ),
            next == branch_next(files@),
        decreases rows@.len() - i,
    {
        match branch_file(codec, &rows[i], table_version) {
            Err(e) => {
                proof {
                    assert forall|k: int| 0 <= k < i implies lists_branch(
                        (#[trigger] rows@[k])@,
                        table_version,
                    ) by {
                        assert(branch_row_is(cells_view(rows@[k]@), table_version, files@[k]));
                    }
                    assert(branch_fault_at(*codec, rows@, i as int, table_version, e));
                }
                return Err(e);
            },
            Ok(file) => {
                next = Some(CursorState::Branch { file: file.file.file_id });
                files.push(file);
            },
        }
        i = i + 1;
    }
    Ok(BranchBatch { files, next })
}

/// A batch of the files that a snapshot added.
#[derive(Debug)]
pub struct HistoryBatch {
    pub files: Vec<ReaderFile>,
    pub next: HistoryNext,
}

/// A history's listing goes on in the same snapshot after a full batch, with
/// the parent after any other, and ends at a snapshot without a parent.
pub open spec fn history_next(
    point: SnapshotPoint,
    files: Seq<ReaderFile>,
    limit: int,
) -> HistoryNext {
    if files.len() == limit {
        HistoryNext::Here(
            CursorState::Snapshot {
                snapshot: point.snapshot_id,
                before_sequence: point.sequence_number,
                file: Some(files.last().file.file_id),
            },
        )
    } else {
        match point.parent_snapshot_id {
            Some(parent) => HistoryNext::Parent(parent),
            None => HistoryNext::End,
        }
    }
}

/// Reads a batch of the files that a snapshot added from its rows.
pub fn history_batch<C: IdRule + TextCodec>(
    codec: &C,
    rows: &Vec<Vec<Cell>>,
    point: &SnapshotPoint,
    limit: usize,
) -> (r: Result<HistoryBatch, RuntimeError>)
    requires
        limit > 0,
    ensures
        match r {
            Ok(batch) => {
                &&& batch.files@.len() == rows@.len()
                &&& forall|i: int|
                    0 <= i < rows@.len() ==> history_row_is(
                        cells_view((#[trigger] rows@[i])@),
                        *point,
                        batch.files@[i],
                    )
                &&& batch.next == history_next(*point, batch.files@, limit as int)
            },
            Err(e) => exists|i: int|
                0 <= i < rows@.len() && #[trigger] history_fault_at(*codec, rows@, i, *point, e),
        },
{
    let mut files: Vec<ReaderFile> = Vec::new();
    let mut last: Option<Id> = None;
    let mut i: usize = 0;
    while i < rows.len()
        invariant
            i <= rows@.len(),
            files@.len() == i,
            forall|k: int|
                0 <= k < i ==> history_row_is(
                    cells_view((#[trigger] rows@[k])@),
                    *point,
                    files@[k],
                ),
            last == if i == 0 {
                None
            } else {
                Some(files@.last().file.file_id)
            },
        decreases rows@.len() - i,
    {
        match historical_file(codec, &rows[i], point) {
            Err(e) => {
                proof {
                    assert forall|k: int| 0 <= k < i implies lists_history(
                        (#[trigger] rows@[k])@,
                        *point,
                    ) by {
                        assert(history_row_is(cells_view(rows@[k]@), *point, files@[k]));
                    }
                    assert(history_fault_at(*codec, rows@, i as int, *point, e));
                }
                return Err(e);
            },
            Ok(file) => {
                last = Some(file.file.file_id);
                files.push(file);
            },
        }
        i = i + 1;
    }
    let next = match after_history_batch(point, files.len(), limit, last) {
        Some(next) => next,
        None => HistoryNext::End,
    };
    Ok(HistoryBatch { files, next })
}

/// A metric, and the file of its batch that it belongs to.
#[derive(Debug)]
pub struct PlacedMetric {
    pub position: usize,
    pub metric: ReaderMetric,
}

/// Why a row that answers a query for metrics is refused.
pub open spec fn placement_fault<C: IdRule + ScalarCodec + TextCodec>(
    codec: C,
    row: Seq<CellView>,
    field: u32,
    requested: Seq<Id>,
    e: RuntimeError,
) -> bool {
    if row.len() != 10 {
        e@ == ErrorView::Corrupt("invalid metric row"@)
    } else {
        let named = cell_accepted(codec, row[0]);
        let asked = named && requests(requested, row[0]);
        ||| id_fault(codec, row[0], e)
        ||| named && !asked && e@ == ErrorView::Corrupt("metric belongs to an unrequested file"@)
        ||| asked && metric_fault(codec, row.skip(1), e)
        ||| {
            &&& asked
            &&& e@ == ErrorView::Corrupt("unrequested metric field"@)
            &&& exists|metric: ReaderMetric|
                #![trigger metric_is(codec, row.skip(1), metric)]
                metric_is(codec, row.skip(1), metric) && metric.field_id != field
        }
    }
}

/// The value names one of the files that were asked for.
pub open spec fn requests(requested: Seq<Id>, cell: CellView) -> bool {
    exists|k: int|
        0 <= k < requested.len() && id_of(cell) == Ok::<Seq<u8>, ErrorView>(
            (#[trigger] requested[k])@,
        )
}

/// Reads a row that answers a query for metrics: whose metric it is, and the
/// metric. `requested` are the files that the query asked for.
pub fn place_metric<C: IdRule + ScalarCodec + TextCodec>(
    codec: &C,
    row: Vec<Cell>,
    operation: &MetricOperation,
    requested: &Vec<Id>,
) -> (r: Result<PlacedMetric, RuntimeError>)
    requires
        operation.offset + requested@.len() <= usize::MAX,
    ensures
        match r {
            Ok(placed) => {
                let cells = cells_view(row@);
                let at = placed.position - operation.offset;
                &&& cells.len() == 10
                &&& 0 <= at < requested@.len()
                &&& id_of(cells[0]) == Ok::<Seq<u8>, ErrorView>(requested@[at]@)
                &&& metric_is(*codec, cells.skip(1), placed.metric)
                &&& placed.metric.field_id == operation.field
            },
            Err(e) => placement_fault(
                *codec,
                cells_view(row@),
                operation.field,
                requested@,
                e,
            ),
        },
{
    let ghost cells = cells_view(row@);
    if row.len() != 10 {
        return Err(corrupt("invalid metric row"));
    }
    let mut rest = row;
    let first = rest.remove(0);
    assert(cells[0] == first@);
    assert(cells_view(rest@) =~= cells.skip(1));
    let file_id: Id = match id(codec, &first) {
        Err(e) => {
            return Err(e);
        },
        Ok(id) => id,
    };
    let at: usize = match metric_position(requested, &file_id) {
        Err(e) => {
            proof {
                assert forall|k: int| 0 <= k < requested@.len() implies (
                #[trigger] requested@[k])@ != file_id@ by {
                    if requested@[k]@ == file_id@ {
                        lemma_same_id(requested@[k], file_id);
                    }
                }
            }
            return Err(e);
        },
        Ok(at) => at,
    };
    assert(requests(requested@, cells[0])) by {
        assert(requested@[at as int]@ == file_id@);
    }
    let metric = match decode_metric(codec, &rest) {
        Err(e) => {
            return Err(e);
        },
        Ok(metric) => metric,
    };
    if metric.field_id != operation.field {
        return Err(corrupt("unrequested metric field"));
    }
    Ok(PlacedMetric { position: operation.offset + at, metric })
}

/// Whether one of a file's metrics is for a column.
pub open spec fn has_metric(metrics: Seq<ReaderMetric>, field: u32) -> bool {
    exists|i: int| 0 <= i < metrics.len() && (#[trigger] metrics[i]).field_id == field
}

/// Adds a metric to those of its file. A file has one metric for a column.
pub fn add_metric(metrics: &mut Vec<ReaderMetric>, metric: ReaderMetric) -> (r: Result<
    (),
    RuntimeError,
>)
    ensures
        match r {
            Ok(()) => {
                &&& !has_metric(old(metrics)@, metric.field_id)
                &&& final(metrics)@ == old(metrics)@.push(metric)
            },
            Err(e) => {
                &&& has_metric(old(metrics)@, metric.field_id)
                &&& final(metrics)@ == old(metrics)@
                &&& e@ == ErrorView::Corrupt("duplicate metric field"@)
            },
        },
{
    let mut i: usize = 0;
    while i < metrics.len()
        invariant
            i <= metrics@.len(),
            metrics@ == old(metrics)@,
            forall|k: int|
                0 <= k < i ==> (#[trigger] metrics@[k]).field_id != metric.field_id,
        decreases metrics@.len() - i,
    {
        if metrics[i].field_id == metric.field_id {
            return Err(corrupt("duplicate metric field"));
        }
        i = i + 1;
    }
    metrics.push(metric);
    Ok(())
}

} // verus!

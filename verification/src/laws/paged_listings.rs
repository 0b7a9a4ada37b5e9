//! Listings in batches: where each goes on, what a cursor is good for, and which
//! metrics are asked for.
use crate::cells::{cells_view, Cell, CellView, IdRule};
use crate::error::RuntimeError;
use crate::hash::Id;
use crate::history::TextCodec;
use crate::listing::{
    branch_batch, branch_row_is, history_batch, history_row_is, place_metric, BranchBatch,
    HistoryBatch, PlacedMetric,
};
use crate::ranges::CanonicalRange;
use crate::reader_rows::{
    after_history_batch, check_cursor, check_history_point, check_listing, groups,
    lemma_metrics_are_covered, metric_operations, metric_position, operation_at, start_history,
    step_to_parent, CursorState, FileCursor, HistoryNext, MetricOperation, ScalarCodec,
    SnapshotPoint,
};
use vstd::prelude::*;

verus! {

/// The value at a place of a row.
pub open spec fn value_at(row: Vec<Cell>, k: int) -> CellView {
    row@[k]@
}

/// A batch of a branch holds the file of each row, in their order. The listing goes on
/// behind the file of the last row, and is over exactly if there were no rows.
pub proof fn lemma_branch_goes_on<C: IdRule + TextCodec>(
    codec: C,
    rows: Vec<Vec<Cell>>,
    table_version: u64,
    batch: BranchBatch,
)
    requires
        call_ensures(
            branch_batch::<C>,
            (&codec, &rows, table_version),
            Ok::<BranchBatch, RuntimeError>(batch),
        ),
    ensures
        batch.files@.len() == rows@.len(),
        forall|i: int|
            0 <= i < rows@.len() ==> CellView::Blob(batch.files@[i].file.file_id@) == value_at(
                #[trigger] rows@[i],
                0,
            ),
        batch.next is None <==> rows@.len() == 0,
        batch.next matches Some(state) ==> (state matches CursorState::Branch { file }
            && CellView::Blob(file@) == value_at(rows@.last(), 0)),
{
    assert forall|i: int| 0 <= i < rows@.len() implies CellView::Blob(
        batch.files@[i].file.file_id@,
    ) == value_at(#[trigger] rows@[i], 0) by {
        assert(branch_row_is(cells_view(rows@[i]@), table_version, batch.files@[i]));
        assert(cells_view(rows@[i]@)[0] == rows@[i]@[0]@);
    }
    if rows@.len() > 0 {
        assert(rows@[rows@.len() - 1] == rows@.last());
    }
}

/// A batch of a history holds the file of each row, in their order. After a full
/// batch the listing goes on in the same snapshot behind the file of the last row,
/// after any other with the parent, and it is over where there is none.
pub proof fn lemma_history_goes_on<C: IdRule + TextCodec>(
    codec: C,
    rows: Vec<Vec<Cell>>,
    point: SnapshotPoint,
    limit: usize,
    batch: HistoryBatch,
)
    requires
        limit > 0,
        call_ensures(
            history_batch::<C>,
            (&codec, &rows, &point, limit),
            Ok::<HistoryBatch, RuntimeError>(batch),
        ),
    ensures
        batch.files@.len() == rows@.len(),
        forall|i: int|
            0 <= i < rows@.len() ==> CellView::Blob(batch.files@[i].file.file_id@) == value_at(
                #[trigger] rows@[i],
                1,
            ),
        rows@.len() == limit ==> (batch.next matches HistoryNext::Here(
            CursorState::Snapshot { snapshot, before_sequence, file: Some(file) },
        ) && snapshot == point.snapshot_id && before_sequence == point.sequence_number
            && CellView::Blob(file@) == value_at(rows@.last(), 1)),
        rows@.len() != limit ==> match point.parent_snapshot_id {
            Some(parent) => batch.next == HistoryNext::Parent(parent),
            None => batch.next is End,
        },
{
    assert forall|i: int| 0 <= i < rows@.len() implies CellView::Blob(
        batch.files@[i].file.file_id@,
    ) == value_at(#[trigger] rows@[i], 1) by {
        assert(history_row_is(cells_view(rows@[i]@), point, batch.files@[i]));
        assert(cells_view(rows@[i]@)[1] == rows@[i]@[1]@);
    }
    if rows@.len() > 0 {
        assert(rows@[rows@.len() - 1] == rows@.last());
    }
}

/// What a full batch leaves behind is where the next one starts: in the same snapshot,
/// behind the same file, and the snapshot is recognised.
pub proof fn lemma_full_batch_is_continued(
    selected: SnapshotPoint,
    point: SnapshotPoint,
    count: usize,
    limit: usize,
    last: Id,
    table_version: u64,
    next: Option<HistoryNext>,
    state: CursorState,
    start: Result<(Id, u64, Option<Id>), RuntimeError>,
    seen: Result<(), RuntimeError>,
)
    requires
        call_ensures(after_history_batch, (&point, count, limit, Some(last)), next),
        next == Some(HistoryNext::Here(state)),
        call_ensures(start_history, (&Some(selected), &Some(state)), start),
        call_ensures(check_history_point, (&point, point.sequence_number, table_version), seen),
    ensures
        count == limit,
        start == Ok::<(Id, u64, Option<Id>), RuntimeError>(
            (point.snapshot_id, point.sequence_number, Some(last)),
        ),
        seen is Ok <==> point.committed_table_version <= table_version,
{
}

/// After the last batch of a snapshot a listing starts anew with the parent, and only
/// with one of a smaller sequence number that the table has reached.
pub proof fn lemma_parent_is_continued(
    selected: SnapshotPoint,
    point: SnapshotPoint,
    parent: SnapshotPoint,
    count: usize,
    limit: usize,
    last: Option<Id>,
    table_version: u64,
    next: Option<HistoryNext>,
    step: Result<CursorState, RuntimeError>,
    start: Result<(Id, u64, Option<Id>), RuntimeError>,
)
    requires
        call_ensures(after_history_batch, (&point, count, limit, last), next),
        count != limit,
        call_ensures(step_to_parent, (&parent, point.sequence_number, table_version), step),
        step matches Ok(state) ==> call_ensures(
            start_history,
            (&Some(selected), &Some(state)),
            start,
        ),
    ensures
        next == Some(
            match point.parent_snapshot_id {
                Some(id) => HistoryNext::Parent(id),
                None => HistoryNext::End,
            },
        ),
        step is Ok <==> parent.sequence_number < point.sequence_number
            && parent.committed_table_version <= table_version,
        step is Ok ==> start == Ok::<(Id, u64, Option<Id>), RuntimeError>(
            (parent.snapshot_id, parent.sequence_number, None),
        ),
{
}

/// A listing over a history starts with the selected snapshot, from its first file;
/// only a cursor of a branch is of no use for it, and an empty table has none.
pub proof fn lemma_history_starts(
    selected: Option<SnapshotPoint>,
    cursor: Option<CursorState>,
    start: Result<(Id, u64, Option<Id>), RuntimeError>,
)
    requires
        call_ensures(start_history, (&selected, &cursor), start),
    ensures
        start is Err <==> selected is None || (cursor matches Some(state) && state is Branch),
        selected is Some && cursor is None ==> start == Ok::<
            (Id, u64, Option<Id>),
            RuntimeError,
        >((selected->0.snapshot_id, selected->0.sequence_number, None)),
{
}

/// A cursor is good for the reader, the ranges and the kind of listing that it came
/// from, and for no other.
pub proof fn lemma_cursor_is_good_for(
    cursor: FileCursor,
    pin: Id,
    ranges: Vec<CanonicalRange>,
    branch: bool,
    r: Result<(), RuntimeError>,
)
    requires
        call_ensures(check_cursor, (&cursor, pin, &ranges, branch), r),
    ensures
        r is Ok <==> {
            &&& cursor.pin == pin
            &&& cursor.ranges@.len() == ranges@.len()
            &&& forall|i: int|
                0 <= i < ranges@.len() ==> #[trigger] cursor.ranges@[i] == ranges@[i]
            &&& match cursor.state {
                CursorState::Branch { .. } => branch,
                CursorState::Snapshot { .. } => !branch,
            }
        },
{
    if cursor.ranges@.len() == ranges@.len() && (forall|i: int|
        0 <= i < ranges@.len() ==> #[trigger] cursor.ranges@[i] == ranges@[i]) {
        assert(cursor.ranges@ =~= ranges@);
    }
}

/// A listing may be asked for with one to 256 files and metrics of up to 4096 columns,
/// each once.
pub proof fn lemma_asked_listings(limit: usize, fields: Vec<u32>, r: Result<(), RuntimeError>)
    requires
        call_ensures(check_listing, (limit, &fields), r),
    ensures
        r is Ok <==> 1 <= limit <= 256 && fields@.len() <= 4096 && fields@.no_duplicates(),
{
    if fields@.no_duplicates() {
        assert(crate::reader_rows::distinct(fields@));
    }
    if crate::reader_rows::distinct(fields@) {
        assert forall|i: int, j: int|
            0 <= i < fields@.len() && 0 <= j < fields@.len() && i != j implies fields@[i]
            != fields@[j] by {
            if i < j {
                assert(fields@[i] != fields@[j]);
            } else {
                assert(fields@[j] != fields@[i]);
            }
        }
    }
}

/// The operation asks for the metric of a column of a file.
pub open spec fn asks(operation: MetricOperation, file: int, field: u32) -> bool {
    operation.offset <= file < operation.offset + operation.count && operation.field == field
}

/// Every metric of a batch is asked for by exactly one query, and none asks for more
/// than sixteen files or for a file that is not there.
pub proof fn lemma_metrics_are_asked_for(
    files: usize,
    fields: Vec<u32>,
    operations: Vec<MetricOperation>,
    file: int,
    column: int,
)
    requires
        files <= 256,
        fields@.len() <= 4096,
        fields@.no_duplicates(),
        call_ensures(metric_operations, (files, &fields), operations),
        0 <= file < files,
        0 <= column < fields@.len(),
    ensures
        exists|n: int|
            0 <= n < operations@.len() && #[trigger] asks(
                operations@[n],
                file,
                fields@[column],
            ),
        forall|n: int, m: int|
            0 <= n < operations@.len() && 0 <= m < operations@.len() && #[trigger] asks(
                operations@[n],
                file,
                fields@[column],
            ) && #[trigger] asks(operations@[m], file, fields@[column]) ==> n == m,
        forall|n: int|
            0 <= n < operations@.len() ==> 1 <= (#[trigger] operations@[n]).count <= 16
                && operations@[n].offset + operations@[n].count <= files
                && fields@.contains(operations@[n].field),
{
    let w = fields@.len() as int;
    let at = (file / 16) * fields@.len() + column;
    lemma_metrics_are_covered(files as int, fields@, file, column);
    assert(operations@[at] == operation_at(files as int, fields@, at));
    assert(asks(operations@[at], file, fields@[column]));
    assert forall|n: int|
        0 <= n < operations@.len() && #[trigger] asks(
            operations@[n],
            file,
            fields@[column],
        ) implies n == at by {
        assert(operations@[n] == operation_at(files as int, fields@, n));
        let c = n % w;
        assert(0 <= c < w) by {
            vstd::arithmetic::div_mod::lemma_mod_bound(n, w);
        }
        assert(fields@[c] == fields@[column]);
        assert(c == column);
    }
    assert forall|n: int| 0 <= n < operations@.len() implies 1 <= (
    #[trigger] operations@[n]).count <= 16 && operations@[n].offset + operations@[n].count <= files
        && fields@.contains(operations@[n].field) by {
        assert(operations@[n] == operation_at(files as int, fields@, n));
        let q = n / w;
        let c = n % w;
        vstd::arithmetic::div_mod::lemma_fundamental_div_mod(n, w);
        vstd::arithmetic::div_mod::lemma_mod_bound(n, w);
        vstd::arithmetic::div_mod::lemma_div_pos_is_pos(n, w);
        assert(q < groups(files as int)) by (nonlinear_arith)
            requires
                n < groups(files as int) * w,
                n == w * q + n % w,
                0 <= n % w,
                w > 0,
        ;
        assert(q * 16 < files);
        assert(fields@[c] == operations@[n].field);
    }
}

/// A metric belongs to the file that its row names: the first of that identifier among
/// those that were asked for.
pub proof fn lemma_metric_has_its_file<C: IdRule + ScalarCodec + TextCodec>(
    codec: C,
    row: Vec<Cell>,
    operation: MetricOperation,
    requested: Vec<Id>,
    placed: PlacedMetric,
)
    requires
        call_ensures(
            place_metric::<C>,
            (&codec, row, &operation, &requested),
            Ok::<PlacedMetric, RuntimeError>(placed),
        ),
    ensures
        ({
            let at = placed.position - operation.offset;
            &&& 0 <= at < requested@.len()
            &&& value_at(row, 0) == CellView::Blob(requested@[at]@)
            &&& placed.metric.field_id == operation.field
            &&& value_at(row, 1) == CellView::Integer(operation.field as i64)
        }),
{
    assert(cells_view(row@)[0] == row@[0]@);
    assert(cells_view(row@).skip(1)[0] == row@[1]@);
}

/// A file is found where it first stands, and missed only where it is not.
pub proof fn lemma_position_is_found(
    requested: Vec<Id>,
    file: Id,
    r: Result<usize, RuntimeError>,
)
    requires
        call_ensures(metric_position, (&requested, &file), r),
    ensures
        r matches Ok(at) ==> {
            &&& 0 <= at < requested@.len()
            &&& requested@[at as int] == file
            &&& forall|k: int| 0 <= k < at ==> #[trigger] requested@[k] != file
        },
        r is Err <==> forall|k: int| 0 <= k < requested@.len() ==> #[trigger] requested@[k] != file,
{
    if r is Err {
        assert forall|k: int| 0 <= k < requested@.len() implies #[trigger] requested@[k]
            != file by {
            if requested@[k] == file {
                assert(requested@.contains(file));
            }
        }
    }
}

} // verus!

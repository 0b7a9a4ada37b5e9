//! Which append requests are accepted, said of the request itself.
use crate::append::{
    files_check, kind_in, kind_of, metric_check, metrics_check, same_entry, same_metric,
    total_bytes, total_records, validate_request_against, AppendFile, AppendRequest, FileFormat,
    FileMetric, MetricBound,
};
use crate::error::RuntimeError;
use crate::hash::Sha256;
use crate::laws::places::{field_at, lemma_place_below, only_primitives, some_primitive};
use crate::schema::{fields_view, Field, FieldView};
use crate::value::{members_view, ValueView};
use vstd::prelude::*;

verus! {

/// A bound that the rules for scalars accept for its field.
pub open spec fn good_bound(bound: Option<MetricBound>) -> bool {
    bound matches Some(b) ==> b.problem is None && b.accepted && !b.null && !b.nan
}

/// A count that a signed number of eight bytes can hold.
pub open spec fn storable(count: Option<u64>) -> bool {
    count matches Some(n) ==> n <= 0x7fff_ffff_ffff_ffff
}

/// What a metric has to be, apart from its field.
pub open spec fn good_metric(metric: FileMetric) -> bool {
    &&& metric.null_count is Some && metric.value_count is Some ==> metric.null_count->0
        <= metric.value_count->0
    &&& storable(metric.column_size_bytes)
    &&& storable(metric.value_count)
    &&& storable(metric.null_count)
    &&& storable(metric.nan_count)
    &&& storable(metric.distinct_count)
    &&& good_bound(metric.lower_bound)
    &&& good_bound(metric.upper_bound)
    &&& metric.lower_bound is Some && metric.upper_bound is Some ==> !metric.reversed
}

/// What a request says of a column, as plain values.
pub struct MetricFacts {
    pub field_id: u32,
    pub counts: Seq<Option<u64>>,
    pub lower: Option<ValueView>,
    pub upper: Option<ValueView>,
    pub metadata: Seq<(Seq<char>, ValueView)>,
}

/// What a request says of a file, as plain values: all but where it is read from.
pub struct FileFacts {
    pub sha256: Sha256,
    pub length: u64,
    pub format: FileFormat,
    pub record_count: u64,
    pub schema_id: u32,
    pub partition_spec_id: u32,
    pub sort_order_id: u32,
    pub partition_values: Seq<(Seq<char>, ValueView)>,
    pub metrics: Seq<MetricFacts>,
    pub metadata: Seq<(Seq<char>, ValueView)>,
}

pub open spec fn bound_value(bound: Option<MetricBound>) -> Option<ValueView> {
    match bound {
        None => None,
        Some(b) => Some(b.value@),
    }
}

pub open spec fn metric_facts(m: FileMetric) -> MetricFacts {
    MetricFacts {
        field_id: m.field_id,
        counts: seq![
            m.column_size_bytes,
            m.value_count,
            m.null_count,
            m.nan_count,
            m.distinct_count,
        ],
        lower: bound_value(m.lower_bound),
        upper: bound_value(m.upper_bound),
        metadata: members_view(m.metadata@),
    }
}

pub open spec fn file_facts(f: AppendFile) -> FileFacts {
    FileFacts {
        sha256: f.fingerprint.sha256,
        length: f.fingerprint.length,
        format: f.format,
        record_count: f.record_count,
        schema_id: f.schema_id,
        partition_spec_id: f.partition_spec_id,
        sort_order_id: f.sort_order_id,
        partition_values: members_view(f.partition_values@),
        metrics: Seq::new(f.metrics@.len(), |i: int| metric_facts(f.metrics@[i])),
        metadata: members_view(f.metadata@),
    }
}

/// The sum of numbers.
pub open spec fn sum(numbers: Seq<u64>) -> int
    decreases numbers.len(),
{
    if numbers.len() == 0 {
        0
    } else {
        numbers[0] + sum(numbers.skip(1))
    }
}

/// What the key, the summary and the files of a request have to be, apart from the
/// fields of their metrics.
pub open spec fn good_request(request: AppendRequest, current_schema: u32) -> bool {
    let files = request.files@;
    &&& request.idempotency_key@ != ""@
    &&& request.idempotency_key@ != "otmp.genesis"@
    &&& files.len() > 0
    &&& forall|i: int|
        0 <= i < request.summary@.len() ==> {
            let key = (#[trigger] request.summary@[i]).key@;
            key != "added-data-files"@ && key != "added-records"@ && key != "added-files-size"@
        }
    &&& forall|i: int|
        0 <= i < files.len() ==> {
            let file = #[trigger] files[i];
            &&& file.schema_id == current_schema
            &&& file.partition_spec_id == 0
            &&& file.sort_order_id == 0
            &&& file.partition_values@.len() == 0
        }
    &&& forall|i: int, j: int|
        0 <= i < j < files.len() ==> file_facts(#[trigger] files[i]) != file_facts(
            #[trigger] files[j],
        )
    &&& forall|i: int, m: int|
        0 <= i < files.len() && 0 <= m < files[i].metrics@.len() ==> good_metric(
            #[trigger] files[i].metrics@[m],
        )
    &&& forall|i: int, m: int, n: int|
        0 <= i < files.len() && 0 <= m < n < files[i].metrics@.len() ==> (
        #[trigger] files[i].metrics@[m]).field_id != (#[trigger] files[i].metrics@[n]).field_id
    &&& sum(Seq::new(files.len(), |i: int| files[i].record_count)) <= 0x7fff_ffff_ffff_ffff
    &&& sum(Seq::new(files.len(), |i: int| files[i].fingerprint.length))
        <= 0x7fff_ffff_ffff_ffff
}

/// Each metric is of a primitive field, and one that counts NaN of a field that may
/// be NaN.
pub open spec fn metrics_have_fields(files: Seq<AppendFile>, fields: Seq<FieldView>) -> bool {
    forall|i: int, m: int|
        0 <= i < files.len() && 0 <= m < files[i].metrics@.len() ==> {
            let metric = #[trigger] files[i].metrics@[m];
            some_primitive(fields, metric.field_id, metric.nan_count is Some)
        }
}

/// The same, where an identifier stands for more than one field.
pub open spec fn metrics_have_only_fields(files: Seq<AppendFile>, fields: Seq<FieldView>) -> bool {
    forall|i: int, m: int|
        0 <= i < files.len() && 0 <= m < files[i].metrics@.len() ==> {
            let metric = #[trigger] files[i].metrics@[m];
            only_primitives(fields, metric.field_id, metric.nan_count is Some)
        }
}

proof fn lemma_kind_in(fields: Seq<FieldView>, id: u32)
    ensures
        match kind_in(fields, id) {
            Some(kind) => exists|place: Seq<int>|
                (#[trigger] field_at(fields, place)) matches Some(f) && f.field_id == id && f.kind
                    == kind,
            None => forall|place: Seq<int>|
                (#[trigger] field_at(fields, place)) matches Some(f) ==> f.field_id != id,
        },
    decreases fields,
{
    reveal_with_fuel(kind_in, 2);
    reveal_with_fuel(kind_of, 2);
    if fields.len() > 0 {
        let n = fields.len() - 1;
        let last = fields.last();
        let front = fields.drop_last();
        lemma_kind_in(last.children, id);
        lemma_kind_in(front, id);
        match kind_in(last.children, id) {
            Some(kind) => {
                let place = choose|place: Seq<int>|
                    (#[trigger] field_at(last.children, place)) matches Some(f) && f.field_id == id
                        && f.kind == kind;
                lemma_place_below(fields, n, place);
                assert(field_at(fields, seq![n] + place) == field_at(last.children, place));
            },
            None => {
                if last.field_id == id {
                    assert(field_at(fields, seq![n]) == Some(last));
                } else {
                    assert forall|place: Seq<int>| (#[trigger] field_at(fields, place)) is Some
                        && place.len() > 0 && place[0] < n implies field_at(front, place)
                        == field_at(fields, place) by {
                        assert(front[place[0]] == fields[place[0]]);
                    }
                    assert forall|place: Seq<int>|
                        (#[trigger] field_at(fields, place)) matches Some(f) && place[0]
                            == n implies field_at(fields, place)->0.field_id != id by {
                        if place.len() > 1 {
                            assert(field_at(last.children, place.skip(1)) == field_at(
                                fields,
                                place,
                            ));
                        }
                    }
                    match kind_in(front, id) {
                        Some(kind) => {
                            let place = choose|place: Seq<int>|
                                (#[trigger] field_at(front, place)) matches Some(f) && f.field_id
                                    == id && f.kind == kind;
                            assert(front[place[0]] == fields[place[0]]);
                            assert(field_at(fields, place) == field_at(front, place));
                        },
                        None => {
                            assert forall|place: Seq<int>|
                                (#[trigger] field_at(fields, place)) matches Some(
                                    f,
                                ) implies field_at(fields, place)->0.field_id != id by {
                                if place[0] < n {
                                    assert(field_at(front, place) == field_at(fields, place));
                                }
                            }
                        },
                    }
                }
            },
        }
    }
}

proof fn lemma_metric(metric: FileMetric, fields: Seq<FieldView>)
    ensures
        metric_check(metric, fields) is Ok ==> good_metric(metric) && some_primitive(
            fields,
            metric.field_id,
            metric.nan_count is Some,
        ),
        good_metric(metric) && only_primitives(
            fields,
            metric.field_id,
            metric.nan_count is Some,
        ) ==> metric_check(metric, fields) is Ok,
{
    lemma_kind_in(fields, metric.field_id);
}

proof fn lemma_metrics(metrics: Seq<FileMetric>, fields: Seq<FieldView>)
    ensures
        metrics_check(metrics, fields) is Ok <==> {
            &&& forall|m: int|
                0 <= m < metrics.len() ==> metric_check(#[trigger] metrics[m], fields) is Ok
            &&& forall|m: int, n: int|
                0 <= m < n < metrics.len() ==> (#[trigger] metrics[m]).field_id != (
                #[trigger] metrics[n]).field_id
        },
    decreases metrics.len(),
{
    if metrics.len() > 0 {
        let front = metrics.drop_last();
        lemma_metrics(front, fields);
        assert forall|m: int| 0 <= m < front.len() implies #[trigger] front[m] == metrics[m] by {}
        if metrics_check(metrics, fields) is Ok {
            assert forall|m: int| 0 <= m < metrics.len() implies metric_check(
                #[trigger] metrics[m],
                fields,
            ) is Ok by {
                if m < front.len() {
                    assert(front[m] == metrics[m]);
                }
            }
            assert forall|m: int, n: int| 0 <= m < n < metrics.len() implies (
            #[trigger] metrics[m]).field_id != (#[trigger] metrics[n]).field_id by {
                assert(front[m] == metrics[m]);
                if n < front.len() {
                    assert(front[n] == metrics[n]);
                }
            }
        } else if (forall|m: int|
            0 <= m < metrics.len() ==> metric_check(#[trigger] metrics[m], fields) is Ok) && (
        forall|m: int, n: int|
            0 <= m < n < metrics.len() ==> (#[trigger] metrics[m]).field_id != (
            #[trigger] metrics[n]).field_id) {
            assert forall|m: int| 0 <= m < front.len() implies metric_check(
                #[trigger] front[m],
                fields,
            ) is Ok by {
                assert(front[m] == metrics[m]);
            }
            assert forall|m: int, n: int| 0 <= m < n < front.len() implies (
            #[trigger] front[m]).field_id != (#[trigger] front[n]).field_id by {
                assert(metrics[m].field_id != metrics[n].field_id);
            }
            assert(metrics[metrics.len() - 1] == metrics.last());
            assert forall|m: int| 0 <= m < front.len() implies (#[trigger] front[m]).field_id
                != metrics.last().field_id by {
                assert(metrics[m].field_id != metrics[metrics.len() - 1].field_id);
            }
        }
    }
}

proof fn lemma_same_facts(a: AppendFile, b: AppendFile)
    ensures
        same_entry(a, b) <==> file_facts(a) == file_facts(b),
{
    let x = file_facts(a);
    let y = file_facts(b);
    assert forall|i: int|
        0 <= i < a.metrics@.len() && i < b.metrics@.len() implies (same_metric(
        #[trigger] a.metrics@[i],
        b.metrics@[i],
    ) <==> metric_facts(a.metrics@[i]) == metric_facts(b.metrics@[i])) by {
        let p = metric_facts(a.metrics@[i]);
        let q = metric_facts(b.metrics@[i]);
        if same_metric(a.metrics@[i], b.metrics@[i]) {
            assert(p.counts =~= q.counts);
        }
        if p == q {
            assert(p.counts[0] == q.counts[0] && p.counts[1] == q.counts[1] && p.counts[2]
                == q.counts[2] && p.counts[3] == q.counts[3] && p.counts[4] == q.counts[4]);
        }
    }
    if same_entry(a, b) {
        assert forall|i: int| 0 <= i < x.metrics.len() implies x.metrics[i] == y.metrics[i] by {
            assert(same_metric(a.metrics@[i], b.metrics@[i]));
        }
        assert(x.metrics =~= y.metrics);
    }
    if x == y {
        assert(x.metrics.len() == y.metrics.len());
        assert forall|i: int| 0 <= i < a.metrics@.len() implies same_metric(
            #[trigger] a.metrics@[i],
            b.metrics@[i],
        ) by {
            assert(x.metrics[i] == y.metrics[i]);
        }
    }
}

/// A file on its own, and against those before it.
spec fn file_fits(files: Seq<AppendFile>, i: int, schema: u32, fields: Seq<FieldView>) -> bool {
    let file = files[i];
    &&& file.schema_id == schema
    &&& file.partition_spec_id == 0
    &&& file.sort_order_id == 0
    &&& file.partition_values@.len() == 0
    &&& file.fingerprint.length <= i64::MAX
    &&& file.record_count <= i64::MAX
    &&& metrics_check(file.metrics@, fields) is Ok
    &&& forall|j: int| 0 <= j < i ==> file_facts(#[trigger] files[j]) != file_facts(file)
}

proof fn lemma_files(files: Seq<AppendFile>, schema: u32, fields: Seq<FieldView>)
    ensures
        files_check(files, schema, fields) is Ok <==> forall|i: int|
            0 <= i < files.len() ==> #[trigger] file_fits(files, i, schema, fields),
    decreases files.len(),
{
    if files.len() > 0 {
        let front = files.drop_last();
        let n = files.len() - 1;
        lemma_files(front, schema, fields);
        assert forall|i: int| 0 <= i < n implies #[trigger] file_fits(front, i, schema, fields)
            == file_fits(files, i, schema, fields) by {
            assert(front[i] == files[i]);
            assert forall|j: int| 0 <= j < i implies #[trigger] front[j] == files[j] by {}
            if file_fits(front, i, schema, fields) {
                assert forall|j: int| 0 <= j < i implies file_facts(#[trigger] files[j])
                    != file_facts(files[i]) by {
                    assert(front[j] == files[j]);
                }
            }
        }
        assert forall|j: int| 0 <= j < n implies (same_entry(#[trigger] front[j], files[n])
            <==> file_facts(files[j]) == file_facts(files[n])) by {
            lemma_same_facts(front[j], files[n]);
        }
        if files_check(files, schema, fields) is Ok {
            assert forall|j: int| 0 <= j < n implies file_facts(#[trigger] files[j]) != file_facts(
                files[n],
            ) by {
                assert(!same_entry(front[j], files[n]));
            }
            assert(file_fits(files, n, schema, fields));
            assert forall|i: int| 0 <= i < files.len() implies #[trigger] file_fits(
                files,
                i,
                schema,
                fields,
            ) by {
                if i < n {
                    assert(file_fits(front, i, schema, fields));
                }
            }
        } else if forall|i: int|
            0 <= i < files.len() ==> #[trigger] file_fits(files, i, schema, fields) {
            assert(file_fits(files, n, schema, fields));
            assert forall|i: int| 0 <= i < front.len() implies #[trigger] file_fits(
                front,
                i,
                schema,
                fields,
            ) by {
                assert(file_fits(files, i, schema, fields));
            }
            assert forall|j: int| 0 <= j < n implies !same_entry(#[trigger] front[j], files[n]) by {
                assert(file_facts(files[j]) != file_facts(files[n]));
            }
        }
    }
}

proof fn lemma_sum_push(numbers: Seq<u64>, last: u64)
    ensures
        sum(numbers.push(last)) == sum(numbers) + last,
    decreases numbers.len(),
{
    let all = numbers.push(last);
    if numbers.len() == 0 {
        assert(all.skip(1) =~= Seq::<u64>::empty());
        assert(sum(all.skip(1)) == 0);
    } else {
        assert(all.skip(1) =~= numbers.skip(1).push(last));
        lemma_sum_push(numbers.skip(1), last);
    }
}

proof fn lemma_sum_part(numbers: Seq<u64>, i: int)
    requires
        0 <= i < numbers.len(),
    ensures
        0 <= numbers[i] <= sum(numbers),
    decreases numbers.len(),
{
    lemma_sum_natural(numbers.skip(1));
    if i > 0 {
        lemma_sum_part(numbers.skip(1), i - 1);
    }
}

proof fn lemma_sum_natural(numbers: Seq<u64>)
    ensures
        sum(numbers) >= 0,
    decreases numbers.len(),
{
    if numbers.len() > 0 {
        lemma_sum_natural(numbers.skip(1));
    }
}

pub proof fn lemma_totals(files: Seq<AppendFile>)
    ensures
        total_records(files) == sum(Seq::new(files.len(), |i: int| files[i].record_count)),
        total_bytes(files) == sum(Seq::new(files.len(), |i: int| files[i].fingerprint.length)),
    decreases files.len(),
{
    let records = Seq::new(files.len(), |i: int| files[i].record_count);
    let lengths = Seq::new(files.len(), |i: int| files[i].fingerprint.length);
    if files.len() > 0 {
        let front = files.drop_last();
        lemma_totals(front);
        let r = Seq::new(front.len(), |i: int| front[i].record_count);
        let l = Seq::new(front.len(), |i: int| front[i].fingerprint.length);
        assert(records =~= r.push(files.last().record_count));
        assert(lengths =~= l.push(files.last().fingerprint.length));
        lemma_sum_push(r, files.last().record_count);
        lemma_sum_push(l, files.last().fingerprint.length);
    }
}

/// An append request is accepted exactly if its key may be used, it has files, its
/// summary leaves the runtime's keys alone, every file is of the current schema,
/// unpartitioned and unsorted, no two files say the same, the totals can be stored,
/// and every metric is of a primitive field, each field once, with counts that can
/// be and bounds that the field's type accepts, neither null nor NaN, in their
/// order. Where an identifier stands for more than one field, all of them count.
pub proof fn lemma_accepted_requests(
    request: AppendRequest,
    current_schema: u32,
    fields: Vec<Field>,
    r: Result<(), RuntimeError>,
)
    requires
        call_ensures(validate_request_against, (&request, current_schema, &fields), r),
    ensures
        r is Ok ==> good_request(request, current_schema) && metrics_have_fields(
            request.files@,
            fields_view(fields@),
        ),
        good_request(request, current_schema) && metrics_have_only_fields(
            request.files@,
            fields_view(fields@),
        ) ==> r is Ok,
{
    let all = fields_view(fields@);
    let files = request.files@;
    let records = Seq::new(files.len(), |i: int| files[i].record_count);
    let lengths = Seq::new(files.len(), |i: int| files[i].fingerprint.length);
    reveal_strlit("");
    assert(request.idempotency_key@.len() == 0 <==> request.idempotency_key@ =~= ""@);
    lemma_files(files, current_schema, all);
    lemma_totals(files);
    assert forall|i: int| 0 <= i < files.len() implies {
        &&& (#[trigger] files[i]).record_count <= sum(records)
        &&& files[i].fingerprint.length <= sum(lengths)
    } by {
        lemma_sum_part(records, i);
        lemma_sum_part(lengths, i);
        assert(records[i] == files[i].record_count);
        assert(lengths[i] == files[i].fingerprint.length);
    }
    assert forall|i: int| 0 <= i < files.len() implies (metrics_check(
        (#[trigger] files[i]).metrics@,
        all,
    ) is Ok <==> {
        &&& forall|m: int|
            0 <= m < files[i].metrics@.len() ==> metric_check(
                #[trigger] files[i].metrics@[m],
                all,
            ) is Ok
        &&& forall|m: int, n: int|
            0 <= m < n < files[i].metrics@.len() ==> (#[trigger] files[i].metrics@[m]).field_id != (
            #[trigger] files[i].metrics@[n]).field_id
    }) by {
        lemma_metrics(files[i].metrics@, all);
    }
    assert forall|i: int, m: int| 0 <= i < files.len() && 0 <= m < files[i].metrics@.len() implies {
        let metric = #[trigger] files[i].metrics@[m];
        &&& metric_check(metric, all) is Ok ==> good_metric(metric) && some_primitive(
            all,
            metric.field_id,
            metric.nan_count is Some,
        )
        &&& good_metric(metric) && only_primitives(
            all,
            metric.field_id,
            metric.nan_count is Some,
        ) ==> metric_check(metric, all) is Ok
    } by {
        lemma_metric(files[i].metrics@[m], all);
    }
    if r is Ok {
        assert forall|i: int| 0 <= i < files.len() implies #[trigger] file_fits(
            files,
            i,
            current_schema,
            all,
        ) by {}
        assert forall|i: int| 0 <= i < files.len() implies {
            let file = #[trigger] files[i];
            &&& file.schema_id == current_schema
            &&& file.partition_spec_id == 0
            &&& file.sort_order_id == 0
            &&& file.partition_values@.len() == 0
        } by {
            assert(file_fits(files, i, current_schema, all));
        }
        assert forall|i: int, j: int| 0 <= i < j < files.len() implies file_facts(
            #[trigger] files[i],
        ) != file_facts(#[trigger] files[j]) by {
            assert(file_fits(files, j, current_schema, all));
        }
        assert forall|i: int, m: int|
            0 <= i < files.len() && 0 <= m < files[i].metrics@.len() implies good_metric(
            #[trigger] files[i].metrics@[m],
        ) by {
            assert(file_fits(files, i, current_schema, all));
        }
        assert forall|i: int, m: int|
            0 <= i < files.len() && 0 <= m < files[i].metrics@.len() implies {
            let metric = #[trigger] files[i].metrics@[m];
            some_primitive(all, metric.field_id, metric.nan_count is Some)
        } by {
            assert(file_fits(files, i, current_schema, all));
        }
        assert forall|i: int, m: int, n: int|
            0 <= i < files.len() && 0 <= m < n < files[i].metrics@.len() implies (
        #[trigger] files[i].metrics@[m]).field_id != (#[trigger] files[i].metrics@[n]).field_id by {
            assert(file_fits(files, i, current_schema, all));
        }
    }
    if good_request(request, current_schema) && metrics_have_only_fields(files, all) {
        assert forall|i: int| 0 <= i < files.len() implies #[trigger] file_fits(
            files,
            i,
            current_schema,
            all,
        ) by {
            let file = files[i];
            assert forall|m: int| 0 <= m < files[i].metrics@.len() implies metric_check(
                #[trigger] files[i].metrics@[m],
                all,
            ) is Ok by {
                assert(good_metric(files[i].metrics@[m]));
            }
        }
    }
}

} // verus!

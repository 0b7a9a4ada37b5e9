//! Ranges over file metrics: what a file must be able to hold to be listed.
use crate::error::{exhausted, ErrorView, RuntimeError};
use crate::schema::{Field, Schema, TypeKind};
use crate::text::reads;
use vstd::prelude::*;
use vstd::string::*;

verus! {

/// One end of a range.
#[derive(Clone, Copy, Debug, PartialEq, Eq, Structural)]
pub enum Bound<T> {
    Included(T),
    Excluded(T),
    Unbounded,
}

/// A condition on the values of a column.
#[derive(Clone, Copy, Debug)]
pub enum FileMetricRange {
    Int32 { field_id: u32, lower: Bound<i32>, upper: Bound<i32> },
    Int64 { field_id: u32, lower: Bound<i64>, upper: Bound<i64> },
    /// Signed days from the Unix epoch.
    Date { field_id: u32, lower: Bound<i32>, upper: Bound<i32> },
}

#[derive(Clone, Copy, Debug, PartialEq, Eq, Structural)]
pub enum RangeType {
    Int32,
    Int64,
    Date,
}

impl RangeType {
    pub open spec fn spec_text(self) -> Seq<char> {
        match self {
            RangeType::Int32 => "int32"@,
            RangeType::Int64 => "int64"@,
            RangeType::Date => "date"@,
        }
    }

    /// The place of the type in the order of ranges.
    pub open spec fn rank(self) -> int {
        match self {
            RangeType::Int32 => 0,
            RangeType::Int64 => 1,
            RangeType::Date => 2,
        }
    }

    pub fn as_str(self) -> (text: &'static str)
        ensures
            text@ == self.spec_text(),
    {
        match self {
            RangeType::Int32 => "int32",
            RangeType::Int64 => "int64",
            RangeType::Date => "date",
        }
    }
}

/// All conditions on one column, as one range.
#[derive(Clone, Copy, Debug, PartialEq, Eq, Structural)]
pub struct CanonicalRange {
    pub field_id: u32,
    pub range_type: RangeType,
    pub lower: Bound<i64>,
    pub upper: Bound<i64>,
}

/// Whether a value is not below a lower bound.
pub open spec fn above(bound: Bound<i64>, x: int) -> bool {
    match bound {
        Bound::Included(a) => x >= a,
        Bound::Excluded(a) => x > a,
        Bound::Unbounded => true,
    }
}

/// Whether a value is not above an upper bound.
pub open spec fn below(bound: Bound<i64>, x: int) -> bool {
    match bound {
        Bound::Included(a) => x <= a,
        Bound::Excluded(a) => x < a,
        Bound::Unbounded => true,
    }
}

pub open spec fn widened(bound: Bound<i32>) -> Bound<i64> {
    match bound {
        Bound::Included(a) => Bound::Included(a as i64),
        Bound::Excluded(a) => Bound::Excluded(a as i64),
        Bound::Unbounded => Bound::Unbounded,
    }
}

pub fn widen(bound: Bound<i32>) -> (wide: Bound<i64>)
    ensures
        wide == widened(bound),
{
    match bound {
        Bound::Included(a) => Bound::Included(a as i64),
        Bound::Excluded(a) => Bound::Excluded(a as i64),
        Bound::Unbounded => Bound::Unbounded,
    }
}

/// The stronger of two lower bounds; of two with one value the exclusive one.
pub open spec fn stronger_lower(a: Bound<i64>, b: Bound<i64>) -> Bound<i64> {
    match (a, b) {
        (Bound::Unbounded, _) => b,
        (_, Bound::Unbounded) => a,
        (Bound::Included(x), Bound::Included(y)) => Bound::Included(
            if x >= y {
                x
            } else {
                y
            },
        ),
        (Bound::Excluded(x), Bound::Excluded(y)) => Bound::Excluded(
            if x >= y {
                x
            } else {
                y
            },
        ),
        (Bound::Included(x), Bound::Excluded(y)) => if x > y {
            Bound::Included(x)
        } else {
            Bound::Excluded(y)
        },
        (Bound::Excluded(x), Bound::Included(y)) => if y > x {
            Bound::Included(y)
        } else {
            Bound::Excluded(x)
        },
    }
}

pub open spec fn stronger_upper(a: Bound<i64>, b: Bound<i64>) -> Bound<i64> {
    match (a, b) {
        (Bound::Unbounded, _) => b,
        (_, Bound::Unbounded) => a,
        (Bound::Included(x), Bound::Included(y)) => Bound::Included(
            if x <= y {
                x
            } else {
                y
            },
        ),
        (Bound::Excluded(x), Bound::Excluded(y)) => Bound::Excluded(
            if x <= y {
                x
            } else {
                y
            },
        ),
        (Bound::Included(x), Bound::Excluded(y)) => if x < y {
            Bound::Included(x)
        } else {
            Bound::Excluded(y)
        },
        (Bound::Excluded(x), Bound::Included(y)) => if y < x {
            Bound::Included(y)
        } else {
            Bound::Excluded(x)
        },
    }
}

/// The bound that both lower bounds come to.
pub fn strongest_lower(current: Bound<i64>, candidate: Bound<i64>) -> (bound: Bound<i64>)
    ensures
        bound == stronger_lower(current, candidate),
        forall|x: int| #[trigger] above(bound, x) <==> above(current, x) && above(candidate, x),
{
    match (current, candidate) {
        (Bound::Unbounded, _) => candidate,
        (_, Bound::Unbounded) => current,
        (Bound::Included(a), Bound::Included(b)) => if a >= b {
            current
        } else {
            candidate
        },
        (Bound::Excluded(a), Bound::Excluded(b)) => if a >= b {
            current
        } else {
            candidate
        },
        (Bound::Included(a), Bound::Excluded(b)) => if a > b {
            current
        } else {
            candidate
        },
        (Bound::Excluded(b), Bound::Included(a)) => if a > b {
            candidate
        } else {
            current
        },
    }
}

/// The bound that both upper bounds come to.
pub fn strongest_upper(current: Bound<i64>, candidate: Bound<i64>) -> (bound: Bound<i64>)
    ensures
        bound == stronger_upper(current, candidate),
        forall|x: int| #[trigger] below(bound, x) <==> below(current, x) && below(candidate, x),
{
    match (current, candidate) {
        (Bound::Unbounded, _) => candidate,
        (_, Bound::Unbounded) => current,
        (Bound::Included(a), Bound::Included(b)) => if a <= b {
            current
        } else {
            candidate
        },
        (Bound::Excluded(a), Bound::Excluded(b)) => if a <= b {
            current
        } else {
            candidate
        },
        (Bound::Included(a), Bound::Excluded(b)) => if a < b {
            current
        } else {
            candidate
        },
        (Bound::Excluded(b), Bound::Included(a)) => if a < b {
            candidate
        } else {
            current
        },
    }
}

/// Bounds that contradict each other as they stand.
pub open spec fn contradictory(lower: Bound<i64>, upper: Bound<i64>) -> bool {
    match (lower, upper) {
        (Bound::Unbounded, _) => false,
        (_, Bound::Unbounded) => false,
        (Bound::Included(a), Bound::Included(b)) => a > b,
        (Bound::Included(a), Bound::Excluded(b)) => a >= b,
        (Bound::Excluded(a), Bound::Included(b)) => a >= b,
        (Bound::Excluded(a), Bound::Excluded(b)) => a >= b,
    }
}

pub fn bounds_are_impossible(lower: &Bound<i64>, upper: &Bound<i64>) -> (impossible: bool)
    ensures
        impossible == contradictory(*lower, *upper),
{
    match (lower, upper) {
        (Bound::Included(a), Bound::Included(b)) => *a > *b,
        (Bound::Included(a), Bound::Excluded(b)) => *a >= *b,
        (Bound::Excluded(a), Bound::Included(b)) => *a >= *b,
        (Bound::Excluded(a), Bound::Excluded(b)) => *a >= *b,
        _ => false,
    }
}

/// No value lies within contradictory bounds, so skipping all files loses none.
pub proof fn lemma_contradiction_is_empty(lower: Bound<i64>, upper: Bound<i64>, x: int)
    requires
        contradictory(lower, upper),
    ensures
        !(above(lower, x) && below(upper, x)),
{
}

pub open spec fn range_field(range: FileMetricRange) -> u32 {
    match range {
        FileMetricRange::Int32 { field_id, .. } => field_id,
        FileMetricRange::Int64 { field_id, .. } => field_id,
        FileMetricRange::Date { field_id, .. } => field_id,
    }
}

pub open spec fn range_kind(range: FileMetricRange) -> RangeType {
    match range {
        FileMetricRange::Int32 { .. } => RangeType::Int32,
        FileMetricRange::Int64 { .. } => RangeType::Int64,
        FileMetricRange::Date { .. } => RangeType::Date,
    }
}

pub open spec fn range_lower(range: FileMetricRange) -> Bound<i64> {
    match range {
        FileMetricRange::Int32 { lower, .. } => widened(lower),
        FileMetricRange::Int64 { lower, .. } => lower,
        FileMetricRange::Date { lower, .. } => widened(lower),
    }
}

pub open spec fn range_upper(range: FileMetricRange) -> Bound<i64> {
    match range {
        FileMetricRange::Int32 { upper, .. } => widened(upper),
        FileMetricRange::Int64 { upper, .. } => upper,
        FileMetricRange::Date { upper, .. } => widened(upper),
    }
}

/// Whether a column of this type has values of a range's kind.
pub open spec fn has_kind(kind: TypeKind, range: RangeType) -> bool {
    match range {
        RangeType::Int32 => kind matches TypeKind::Primitive(p) && p.text@
            == "{\"type\":\"int32\"}"@,
        RangeType::Int64 => kind matches TypeKind::Primitive(p) && p.text@
            == "{\"type\":\"int64\"}"@,
        RangeType::Date => kind matches TypeKind::Primitive(p) && p.text@
            == "{\"type\":\"date\"}"@,
    }
}

/// The first top-level field with an identifier.
pub open spec fn top_field(fields: Seq<Field>, id: u32) -> Option<Field>
    decreases fields.len(),
{
    if fields.len() == 0 {
        None
    } else if fields[0].field_id == id {
        Some(fields[0])
    } else {
        top_field(fields.skip(1), id)
    }
}

/// Whether a range speaks of a column that the schema has, with its type.
pub open spec fn applies(fields: Seq<Field>, range: FileMetricRange) -> bool {
    top_field(fields, range_field(range)) matches Some(field) && has_kind(
        field.field_type.kind,
        range_kind(range),
    )
}

fn applies_to(fields: &Vec<Field>, field_id: u32, kind: RangeType) -> (applies_so: bool)
    ensures
        applies_so == (top_field(fields@, field_id) matches Some(field) && has_kind(
            field.field_type.kind,
            kind,
        )),
{
    let mut i: usize = 0;
    assert(fields@.skip(0) =~= fields@);
    while i < fields.len()
        invariant
            i <= fields@.len(),
            top_field(fields@, field_id) == top_field(fields@.skip(i as int), field_id),
        decreases fields@.len() - i,
    {
        assert(fields@.skip(i as int).skip(1) =~= fields@.skip(i + 1));
        if fields[i].field_id == field_id {
            return match &fields[i].field_type.kind {
                TypeKind::Primitive(primitive) => match kind {
                    RangeType::Int32 => reads(&primitive.text, "{\"type\":\"int32\"}"),
                    RangeType::Int64 => reads(&primitive.text, "{\"type\":\"int64\"}"),
                    RangeType::Date => reads(&primitive.text, "{\"type\":\"date\"}"),
                },
                _ => false,
            };
        }
        i = i + 1;
    }
    false
}

/// The order of canonical ranges.
pub open spec fn range_before(a: CanonicalRange, b: CanonicalRange) -> bool {
    a.field_id < b.field_id || (a.field_id == b.field_id && a.range_type.rank()
        < b.range_type.rank())
}

pub open spec fn ranges_ordered(ranges: Seq<CanonicalRange>) -> bool {
    forall|i: int, j: int|
        #![trigger ranges[i], ranges[j]]
        0 <= i < j < ranges.len() ==> range_before(ranges[i], ranges[j])
}

/// What a value of a column has to meet.
pub open spec fn meets(range: FileMetricRange, x: int) -> bool {
    above(range_lower(range), x) && below(range_upper(range), x)
}

/// Whether an applicable range speaks of a column.
pub open spec fn mentioned(
    fields: Seq<Field>,
    ranges: Seq<FileMetricRange>,
    field: u32,
    kind: RangeType,
) -> bool {
    exists|j: int| 0 <= j < ranges.len() && concerns(fields, #[trigger] ranges[j], field, kind)
}

pub open spec fn concerns(
    fields: Seq<Field>,
    range: FileMetricRange,
    field: u32,
    kind: RangeType,
) -> bool {
    applies(fields, range) && range_field(range) == field && range_kind(range) == kind
}

/// The lower bound that the applicable ranges of a column come to.
pub open spec fn joint_lower(
    fields: Seq<Field>,
    ranges: Seq<FileMetricRange>,
    field: u32,
    kind: RangeType,
) -> Bound<i64>
    decreases ranges.len(),
{
    if ranges.len() == 0 {
        Bound::Unbounded
    } else {
        let before = joint_lower(fields, ranges.drop_last(), field, kind);
        if concerns(fields, ranges.last(), field, kind) {
            stronger_lower(before, range_lower(ranges.last()))
        } else {
            before
        }
    }
}

pub open spec fn joint_upper(
    fields: Seq<Field>,
    ranges: Seq<FileMetricRange>,
    field: u32,
    kind: RangeType,
) -> Bound<i64>
    decreases ranges.len(),
{
    if ranges.len() == 0 {
        Bound::Unbounded
    } else {
        let before = joint_upper(fields, ranges.drop_last(), field, kind);
        if concerns(fields, ranges.last(), field, kind) {
            stronger_upper(before, range_upper(ranges.last()))
        } else {
            before
        }
    }
}

/// One canonical range for each column that an applicable range speaks of, with
/// the bounds that all of them come to.
pub open spec fn canonicalizes(
    canonical: Seq<CanonicalRange>,
    fields: Seq<Field>,
    ranges: Seq<FileMetricRange>,
) -> bool {
    &&& ranges_ordered(canonical)
    &&& forall|i: int|
        0 <= i < canonical.len() ==> {
            let c = #[trigger] canonical[i];
            &&& mentioned(fields, ranges, c.field_id, c.range_type)
            &&& c.lower == joint_lower(fields, ranges, c.field_id, c.range_type)
            &&& c.upper == joint_upper(fields, ranges, c.field_id, c.range_type)
        }
    &&& forall|field: u32, kind: RangeType| #[trigger]
        mentioned(fields, ranges, field, kind) ==> has_range(canonical, field, kind)
}

pub open spec fn has_range(canonical: Seq<CanonicalRange>, field: u32, kind: RangeType) -> bool {
    exists|i: int|
        0 <= i < canonical.len() && (#[trigger] canonical[i]).field_id == field
            && canonical[i].range_type == kind
}

/// A value lies within the bounds of a column exactly if it meets every
/// applicable range of that column.
pub proof fn lemma_joint_bounds(
    fields: Seq<Field>,
    ranges: Seq<FileMetricRange>,
    field: u32,
    kind: RangeType,
    x: int,
)
    ensures
        above(joint_lower(fields, ranges, field, kind), x) && below(
            joint_upper(fields, ranges, field, kind),
            x,
        ) <==> forall|j: int|
            0 <= j < ranges.len() && concerns(fields, #[trigger] ranges[j], field, kind) ==> meets(
                ranges[j],
                x,
            ),
    decreases ranges.len(),
{
    if ranges.len() > 0 {
        let shorter = ranges.drop_last();
        lemma_joint_bounds(fields, shorter, field, kind, x);
        let last = ranges.len() - 1;
        assert(ranges[last] == ranges.last());
        assert forall|j: int| 0 <= j < last implies #[trigger] shorter[j] == ranges[j] by {}
        if forall|j: int|
            0 <= j < shorter.len() && concerns(fields, #[trigger] shorter[j], field, kind)
                ==> meets(shorter[j], x) {
            assert forall|j: int|
                0 <= j < last && concerns(fields, #[trigger] ranges[j], field, kind) implies meets(
                ranges[j],
                x,
            ) by {
                assert(shorter[j] == ranges[j]);
            }
        }
    }
}

fn rank_of(kind: RangeType) -> (n: u8)
    ensures
        n == kind.rank(),
{
    match kind {
        RangeType::Int32 => 0,
        RangeType::Int64 => 1,
        RangeType::Date => 2,
    }
}

fn merge(ranges: &mut Vec<CanonicalRange>, new: CanonicalRange)
    requires
        ranges_ordered(old(ranges)@),
    ensures
        ranges_ordered(final(ranges)@),
        merged(old(ranges)@, new, final(ranges)@),
{
    let ghost before = ranges@;
    let mut at: usize = 0;
    while at < ranges.len() && (ranges[at].field_id < new.field_id || (ranges[at].field_id
        == new.field_id && rank_of(ranges[at].range_type) < rank_of(new.range_type)))
        invariant
            at <= ranges@.len(),
            ranges@ == before,
            forall|k: int| 0 <= k < at ==> range_before(#[trigger] before[k], new),
        decreases ranges@.len() - at,
    {
        at = at + 1;
    }
    if at < ranges.len() && ranges[at].field_id == new.field_id && rank_of(ranges[at].range_type)
        == rank_of(new.range_type) {
        let known = ranges[at];
        let lower = strongest_lower(known.lower, new.lower);
        let upper = strongest_upper(known.upper, new.upper);
        ranges.set(
            at,
            CanonicalRange {
                field_id: known.field_id,
                range_type: known.range_type,
                lower,
                upper,
            },
        );
        proof {
            assert(ranges@[at as int].field_id == before[at as int].field_id);
            assert forall|i: int, j: int|
                #![trigger ranges@[i], ranges@[j]]
                0 <= i < j < ranges@.len() implies range_before(ranges@[i], ranges@[j]) by {
                assert(range_before(before[i], before[j]));
            }
            assert(merges_at(before, new, ranges@, at as int));
        }
    } else {
        ranges.insert(at, new);
        proof {
            assert forall|i: int, j: int|
                #![trigger ranges@[i], ranges@[j]]
                0 <= i < j < ranges@.len() implies range_before(ranges@[i], ranges@[j]) by {
                if j == at {
                    assert(ranges@[i] == before[i]);
                } else if i == at {
                    assert(ranges@[j] == before[j - 1]);
                    assert(range_before(new, before[at as int]));
                    if j - 1 > at {
                        assert(range_before(before[at as int], before[j - 1]));
                    }
                } else {
                    let a = if i < at {
                        i
                    } else {
                        i - 1
                    };
                    let b = if j < at {
                        j
                    } else {
                        j - 1
                    };
                    assert(ranges@[i] == before[a]);
                    assert(ranges@[j] == before[b]);
                    assert(range_before(before[a], before[b]));
                }
            }
            assert(inserts_at(before, new, ranges@, at as int));
        }
    }
}

/// One range was tightened, and no other changed.
spec fn merges_at(
    before: Seq<CanonicalRange>,
    new: CanonicalRange,
    after: Seq<CanonicalRange>,
    at: int,
) -> bool {
    &&& 0 <= at < before.len()
    &&& before[at].field_id == new.field_id
    &&& before[at].range_type == new.range_type
    &&& after == before.update(at, after[at])
    &&& after[at].field_id == new.field_id
    &&& after[at].range_type == new.range_type
    &&& after[at].lower == stronger_lower(before[at].lower, new.lower)
    &&& after[at].upper == stronger_upper(before[at].upper, new.upper)
}

/// A range was added for a column that had none.
spec fn inserts_at(
    before: Seq<CanonicalRange>,
    new: CanonicalRange,
    after: Seq<CanonicalRange>,
    at: int,
) -> bool {
    &&& 0 <= at <= before.len()
    &&& after == before.insert(at, new)
    &&& forall|k: int|
        0 <= k < before.len() ==> (#[trigger] before[k]).field_id != new.field_id
            || before[k].range_type != new.range_type
}

spec fn merged(
    before: Seq<CanonicalRange>,
    new: CanonicalRange,
    after: Seq<CanonicalRange>,
) -> bool {
    ||| exists|at: int| merges_at(before, new, after, at)
    ||| exists|at: int| inserts_at(before, new, after, at)
}

/// Conditions on columns, brought into one form.
#[derive(Debug)]
pub struct CanonicalizedRanges {
    pub ranges: Vec<CanonicalRange>,
    /// Some column has contradictory bounds.
    pub impossible: bool,
}

proof fn lemma_mentioned_step(
    fields: Seq<Field>,
    ranges: Seq<FileMetricRange>,
    n: int,
    field: u32,
    kind: RangeType,
)
    requires
        0 <= n < ranges.len(),
    ensures
        mentioned(fields, ranges.take(n + 1), field, kind) <==> mentioned(
            fields,
            ranges.take(n),
            field,
            kind,
        ) || concerns(fields, ranges[n], field, kind),
{
    let now = ranges.take(n + 1);
    let before = ranges.take(n);
    assert(now[n] == ranges[n]);
    if mentioned(fields, before, field, kind) {
        let j = choose|j: int|
            0 <= j < before.len() && concerns(fields, #[trigger] before[j], field, kind);
        assert(now[j] == before[j]);
    }
    if mentioned(fields, now, field, kind) {
        let j = choose|j: int|
            0 <= j < now.len() && concerns(fields, #[trigger] now[j], field, kind);
        if j < n {
            assert(before[j] == now[j]);
        }
    }
}

proof fn lemma_unmentioned(
    fields: Seq<Field>,
    ranges: Seq<FileMetricRange>,
    field: u32,
    kind: RangeType,
)
    requires
        !mentioned(fields, ranges, field, kind),
    ensures
        joint_lower(fields, ranges, field, kind) is Unbounded,
        joint_upper(fields, ranges, field, kind) is Unbounded,
    decreases ranges.len(),
{
    if ranges.len() > 0 {
        let n = ranges.len() - 1;
        assert(ranges.take(n + 1) =~= ranges);
        assert(ranges.take(n) =~= ranges.drop_last());
        lemma_mentioned_step(fields, ranges, n, field, kind);
        lemma_unmentioned(fields, ranges.drop_last(), field, kind);
    }
}

proof fn lemma_merge_step(
    fields: Seq<Field>,
    ranges: Seq<FileMetricRange>,
    n: int,
    before: Seq<CanonicalRange>,
    new: CanonicalRange,
    after: Seq<CanonicalRange>,
)
    requires
        0 <= n < ranges.len(),
        canonicalizes(before, fields, ranges.take(n)),
        concerns(fields, ranges[n], new.field_id, new.range_type),
        new.lower == range_lower(ranges[n]),
        new.upper == range_upper(ranges[n]),
        ranges_ordered(after),
        merged(before, new, after),
    ensures
        canonicalizes(after, fields, ranges.take(n + 1)),
{
    let now = ranges.take(n + 1);
    assert(now.drop_last() =~= ranges.take(n));
    assert(now.last() == ranges[n]);
    assert forall|field: u32, kind: RangeType| #[trigger]
        mentioned(fields, now, field, kind) implies has_range(after, field, kind) by {
        lemma_mentioned_step(fields, ranges, n, field, kind);
        if exists|at: int| merges_at(before, new, after, at) {
            let at = choose|at: int| merges_at(before, new, after, at);
            if mentioned(fields, ranges.take(n), field, kind) {
                let i = choose|i: int|
                    0 <= i < before.len() && (#[trigger] before[i]).field_id == field
                        && before[i].range_type == kind;
                assert(after[i].field_id == field && after[i].range_type == kind);
            } else {
                assert(after[at].field_id == field && after[at].range_type == kind);
            }
        } else {
            let at = choose|at: int| inserts_at(before, new, after, at);
            if mentioned(fields, ranges.take(n), field, kind) {
                let i = choose|i: int|
                    0 <= i < before.len() && (#[trigger] before[i]).field_id == field
                        && before[i].range_type == kind;
                let k = if i < at {
                    i
                } else {
                    i + 1
                };
                assert(after[k] == before[i]);
            } else {
                assert(after[at] == new);
            }
        }
    }
    assert forall|i: int| 0 <= i < after.len() implies {
        let c = #[trigger] after[i];
        &&& mentioned(fields, now, c.field_id, c.range_type)
        &&& c.lower == joint_lower(fields, now, c.field_id, c.range_type)
        &&& c.upper == joint_upper(fields, now, c.field_id, c.range_type)
    } by {
        let c = after[i];
        lemma_mentioned_step(fields, ranges, n, c.field_id, c.range_type);
        if exists|at: int| merges_at(before, new, after, at) {
            let at = choose|at: int| merges_at(before, new, after, at);
            if i != at {
                assert(c == before[i]);
                if i < at {
                    assert(range_before(before[i], before[at]));
                } else {
                    assert(range_before(before[at], before[i]));
                }
            } else {
                assert(before[at].field_id == c.field_id);
            }
        } else {
            let at = choose|at: int| inserts_at(before, new, after, at);
            if i == at {
                assert(c == new);
                if mentioned(fields, ranges.take(n), c.field_id, c.range_type) {
                    let k = choose|k: int|
                        0 <= k < before.len() && (#[trigger] before[k]).field_id == c.field_id
                            && before[k].range_type == c.range_type;
                    assert(false);
                }
                lemma_unmentioned(fields, ranges.take(n), c.field_id, c.range_type);
            } else {
                let k = if i < at {
                    i
                } else {
                    i - 1
                };
                assert(c == before[k]);
            }
        }
    }
}

proof fn lemma_skip_step(
    fields: Seq<Field>,
    ranges: Seq<FileMetricRange>,
    n: int,
    canonical: Seq<CanonicalRange>,
)
    requires
        0 <= n < ranges.len(),
        canonicalizes(canonical, fields, ranges.take(n)),
        !applies(fields, ranges[n]),
    ensures
        canonicalizes(canonical, fields, ranges.take(n + 1)),
{
    let now = ranges.take(n + 1);
    assert(now.drop_last() =~= ranges.take(n));
    assert(now.last() == ranges[n]);
    assert forall|field: u32, kind: RangeType| #[trigger]
        mentioned(fields, now, field, kind) implies has_range(canonical, field, kind) by {
        lemma_mentioned_step(fields, ranges, n, field, kind);
    }
    assert forall|i: int| 0 <= i < canonical.len() implies {
        let c = #[trigger] canonical[i];
        &&& mentioned(fields, now, c.field_id, c.range_type)
        &&& c.lower == joint_lower(fields, now, c.field_id, c.range_type)
        &&& c.upper == joint_upper(fields, now, c.field_id, c.range_type)
    } by {
        lemma_mentioned_step(
            fields,
            ranges,
            n,
            canonical[i].field_id,
            canonical[i].range_type,
        );
    }
}

/// Brings conditions into one form. Those on columns that the schema does not
/// have with that type are left out, so that no file is skipped for them.
pub fn canonicalize_ranges(schema: &Schema, ranges: &Vec<FileMetricRange>) -> (r: Result<
    CanonicalizedRanges,
    RuntimeError,
>)
    ensures
        match r {
            Ok(c) => {
                &&& ranges@.len() <= 4096
                &&& canonicalizes(c.ranges@, schema.fields@, ranges@)
                &&& c.impossible == exists|i: int|
                    0 <= i < c.ranges@.len() && contradictory(
                        (#[trigger] c.ranges@[i]).lower,
                        c.ranges@[i].upper,
                    )
            },
            Err(e) => ranges@.len() > 4096 && e@ == ErrorView::ResourceExhausted(
                "file metric range limit is 4096"@,
            ),
        },
{
    if ranges.len() > 4096 {
        return Err(exhausted("file metric range limit is 4096"));
    }
    let fields = &schema.fields;
    let mut merged_ranges: Vec<CanonicalRange> = Vec::new();
    let mut i: usize = 0;
    while i < ranges.len()
        invariant
            i <= ranges@.len(),
            fields == &schema.fields,
            canonicalizes(merged_ranges@, fields@, ranges@.take(i as int)),
        decreases ranges@.len() - i,
    {
        let (field_id, range_type, lower, upper) = match ranges[i] {
            FileMetricRange::Int32 { field_id, lower, upper } => (
                field_id,
                RangeType::Int32,
                widen(lower),
                widen(upper),
            ),
            FileMetricRange::Int64 { field_id, lower, upper } => (
                field_id,
                RangeType::Int64,
                lower,
                upper,
            ),
            FileMetricRange::Date { field_id, lower, upper } => (
                field_id,
                RangeType::Date,
                widen(lower),
                widen(upper),
            ),
        };
        if applies_to(fields, field_id, range_type) {
            let new = CanonicalRange { field_id, range_type, lower, upper };
            let ghost before = merged_ranges@;
            merge(&mut merged_ranges, new);
            proof {
                lemma_merge_step(
                    fields@,
                    ranges@,
                    i as int,
                    before,
                    new,
                    merged_ranges@,
                );
            }
        } else {
            proof {
                lemma_skip_step(fields@, ranges@, i as int, merged_ranges@);
            }
        }
        i = i + 1;
    }
    assert(ranges@.take(i as int) =~= ranges@);
    let mut impossible: bool = false;
    let mut k: usize = 0;
    while k < merged_ranges.len()
        invariant
            k <= merged_ranges@.len(),
            impossible == exists|i: int|
                0 <= i < k && contradictory(
                    (#[trigger] merged_ranges@[i]).lower,
                    merged_ranges@[i].upper,
                ),
        decreases merged_ranges@.len() - k,
    {
        if bounds_are_impossible(&merged_ranges[k].lower, &merged_ranges[k].upper) {
            impossible = true;
            assert(contradictory(merged_ranges@[k as int].lower, merged_ranges@[k as int].upper));
        }
        k = k + 1;
    }
    Ok(CanonicalizedRanges { ranges: merged_ranges, impossible })
}

} // verus!

//! What comes of the ranges that a listing is asked for: conditions on the columns
//! that the schema has, no stronger and no weaker than what was asked.
use crate::error::RuntimeError;
use crate::laws::pruned_listings::{reaches, stays_within};
use crate::ranges::{
    canonicalize_ranges, canonicalizes, concerns, has_range, joint_lower, joint_upper,
    lemma_joint_bounds, mentioned, top_field, Bound, CanonicalRange, CanonicalizedRanges,
    FileMetricRange, RangeType,
};
use crate::schema::{Field, Schema, TypeKind};
use vstd::prelude::*;

verus! {

/// The field at the place is the first of the identifier.
pub open spec fn is_column(fields: Seq<Field>, k: int, id: u32) -> bool {
    &&& 0 <= k < fields.len()
    &&& fields[k].field_id == id
    &&& forall|j: int| 0 <= j < k ==> (#[trigger] fields[j]).field_id != id
}

/// The column has this primitive type.
pub open spec fn is_of(field: Field, text: Seq<char>) -> bool {
    field.field_type.kind matches TypeKind::Primitive(p) && p.text@ == text
}

/// What was asked speaks of this column, which the schema has with the same type.
pub open spec fn asks_of(
    fields: Seq<Field>,
    asked: FileMetricRange,
    id: u32,
    kind: RangeType,
) -> bool {
    match asked {
        FileMetricRange::Int32 { field_id, .. } => {
            &&& field_id == id
            &&& kind == RangeType::Int32
            &&& exists|k: int| #[trigger]
                is_column(fields, k, id) && is_of(fields[k], "{\"type\":\"int32\"}"@)
        },
        FileMetricRange::Int64 { field_id, .. } => {
            &&& field_id == id
            &&& kind == RangeType::Int64
            &&& exists|k: int| #[trigger]
                is_column(fields, k, id) && is_of(fields[k], "{\"type\":\"int64\"}"@)
        },
        FileMetricRange::Date { field_id, .. } => {
            &&& field_id == id
            &&& kind == RangeType::Date
            &&& exists|k: int| #[trigger]
                is_column(fields, k, id) && is_of(fields[k], "{\"type\":\"date\"}"@)
        },
    }
}

pub open spec fn from_below(bound: Bound<i32>, x: int) -> bool {
    match bound {
        Bound::Included(a) => a <= x,
        Bound::Excluded(a) => a < x,
        Bound::Unbounded => true,
    }
}

pub open spec fn from_above(bound: Bound<i32>, x: int) -> bool {
    match bound {
        Bound::Included(a) => x <= a,
        Bound::Excluded(a) => x < a,
        Bound::Unbounded => true,
    }
}

/// The value is one that was asked for.
pub open spec fn wants(asked: FileMetricRange, x: int) -> bool {
    match asked {
        FileMetricRange::Int32 { lower, upper, .. } => from_below(lower, x) && from_above(upper, x),
        FileMetricRange::Date { lower, upper, .. } => from_below(lower, x) && from_above(upper, x),
        FileMetricRange::Int64 { lower, upper, .. } => {
            &&& match lower {
                Bound::Included(a) => a <= x,
                Bound::Excluded(a) => a < x,
                Bound::Unbounded => true,
            }
            &&& match upper {
                Bound::Included(a) => x <= a,
                Bound::Excluded(a) => x < a,
                Bound::Unbounded => true,
            }
        },
    }
}

/// Where a range begins and ends, and whether it holds both ends.
pub open spec fn ends(range: CanonicalRange) -> Option<(int, int, bool)> {
    match (range.lower, range.upper) {
        (Bound::Unbounded, _) => None,
        (_, Bound::Unbounded) => None,
        (Bound::Included(a), Bound::Included(b)) => Some((a as int, b as int, true)),
        (Bound::Included(a), Bound::Excluded(b)) => Some((a as int, b as int, false)),
        (Bound::Excluded(a), Bound::Included(b)) => Some((a as int, b as int, false)),
        (Bound::Excluded(a), Bound::Excluded(b)) => Some((a as int, b as int, false)),
    }
}

/// The end of the range lies before its beginning, or is the same and left out.
pub open spec fn is_empty(range: CanonicalRange) -> bool {
    ends(range) matches Some((a, b, whole)) && (b < a || (a == b && !whole))
}

proof fn lemma_column(fields: Seq<Field>, id: u32) -> (k: int)
    ensures
        match top_field(fields, id) {
            Some(field) => is_column(fields, k, id) && fields[k] == field,
            None => forall|i: int| !#[trigger] is_column(fields, i, id),
        },
    decreases fields.len(),
{
    if fields.len() == 0 || fields[0].field_id == id {
        0
    } else {
        let rest = fields.skip(1);
        let k = lemma_column(rest, id);
        assert forall|j: int| 0 < j < fields.len() implies #[trigger] fields[j] == rest[j
            - 1] by {}
        if top_field(rest, id) is None {
            assert forall|i: int| !#[trigger] is_column(fields, i, id) by {
                if is_column(fields, i, id) {
                    assert forall|j: int| 0 <= j < i - 1 implies (#[trigger] rest[j]).field_id
                        != id by {
                        assert(rest[j] == fields[j + 1]);
                    }
                    assert(is_column(rest, i - 1, id));
                }
            }
        }
        k + 1
    }
}

proof fn lemma_asks(fields: Seq<Field>, asked: FileMetricRange, id: u32, kind: RangeType)
    ensures
        concerns(fields, asked, id, kind) <==> asks_of(fields, asked, id, kind),
{
    let k = lemma_column(fields, id);
    assert forall|i: int| #[trigger]
        is_column(fields, i, id) && top_field(fields, id) is Some implies i == k by {
        if is_column(fields, i, id) {
            if i < k {
                assert(fields[i].field_id != id);
            } else if k < i {
                assert(fields[k].field_id != id);
            }
        }
    }
}

/// For each column of which a range was asked there is one condition, and there are
/// no others. A value meets it exactly if it is wanted by all that was asked of the
/// column. The listing is found to be empty exactly if a condition cannot be met as it
/// stands. Only too many ranges are refused.
pub proof fn lemma_ranges_are_kept(
    schema: Schema,
    ranges: Vec<FileMetricRange>,
    r: Result<CanonicalizedRanges, RuntimeError>,
)
    requires
        call_ensures(canonicalize_ranges, (&schema, &ranges), r),
    ensures
        r is Ok <==> ranges@.len() <= 4096,
        r matches Ok(c) ==> {
            &&& forall|i: int, x: int|
                0 <= i < c.ranges@.len() ==> (#[trigger] reaches(c.ranges@[i], x)
                    && stays_within(c.ranges@[i], x) <==> forall|j: int|
                    0 <= j < ranges@.len() && asks_of(
                        schema.fields@,
                        #[trigger] ranges@[j],
                        c.ranges@[i].field_id,
                        c.ranges@[i].range_type,
                    ) ==> wants(ranges@[j], x))
            &&& forall|i: int|
                0 <= i < c.ranges@.len() ==> exists|j: int|
                    0 <= j < ranges@.len() && asks_of(
                        schema.fields@,
                        #[trigger] ranges@[j],
                        (#[trigger] c.ranges@[i]).field_id,
                        c.ranges@[i].range_type,
                    )
            &&& forall|j: int, id: u32, kind: RangeType|
                0 <= j < ranges@.len() && #[trigger] asks_of(schema.fields@, ranges@[j], id, kind)
                    ==> exists|i: int|
                    0 <= i < c.ranges@.len() && (#[trigger] c.ranges@[i]).field_id == id
                        && c.ranges@[i].range_type == kind
            &&& forall|i: int, k: int|
                0 <= i < k < c.ranges@.len() ==> (#[trigger] c.ranges@[i]).field_id != (
                #[trigger] c.ranges@[k]).field_id || c.ranges@[i].range_type
                    != c.ranges@[k].range_type
            &&& c.impossible <==> exists|i: int|
                0 <= i < c.ranges@.len() && is_empty(#[trigger] c.ranges@[i])
        },
{
    if let Ok(c) = r {
        let fields = schema.fields@;
        let out = c.ranges@;
        assert(canonicalizes(out, fields, ranges@));
        assert forall|j: int, id: u32, kind: RangeType|
            0 <= j < ranges@.len() implies (concerns(fields, #[trigger] ranges@[j], id, kind)
            <==> #[trigger] asks_of(fields, ranges@[j], id, kind)) by {
            lemma_asks(fields, ranges@[j], id, kind);
        }
        assert forall|i: int, x: int| 0 <= i < out.len() implies (#[trigger] reaches(out[i], x)
            && stays_within(out[i], x) <==> forall|j: int|
            0 <= j < ranges@.len() && asks_of(
                fields,
                #[trigger] ranges@[j],
                out[i].field_id,
                out[i].range_type,
            ) ==> wants(ranges@[j], x)) by {
            let id = out[i].field_id;
            let kind = out[i].range_type;
            lemma_joint_bounds(fields, ranges@, id, kind, x);
            assert(out[i].lower == joint_lower(fields, ranges@, id, kind));
            assert(out[i].upper == joint_upper(fields, ranges@, id, kind));
            assert forall|j: int| 0 <= j < ranges@.len() implies (crate::ranges::meets(
                #[trigger] ranges@[j],
                x,
            ) <==> wants(ranges@[j], x)) by {}
        }
        assert forall|i: int| 0 <= i < out.len() implies exists|j: int|
            0 <= j < ranges@.len() && asks_of(
                fields,
                #[trigger] ranges@[j],
                (#[trigger] out[i]).field_id,
                out[i].range_type,
            ) by {
            assert(mentioned(fields, ranges@, out[i].field_id, out[i].range_type));
        }
        assert forall|j: int, id: u32, kind: RangeType|
            0 <= j < ranges@.len() && #[trigger] asks_of(
                fields,
                ranges@[j],
                id,
                kind,
            ) implies exists|i: int|
            0 <= i < out.len() && (#[trigger] out[i]).field_id == id && out[i].range_type
                == kind by {
            assert(concerns(fields, ranges@[j], id, kind));
            assert(mentioned(fields, ranges@, id, kind));
            assert(has_range(out, id, kind));
        }
        assert forall|i: int| 0 <= i < out.len() implies (is_empty(#[trigger] out[i])
            <==> crate::ranges::contradictory(out[i].lower, out[i].upper)) by {}
    }
}

} // verus!

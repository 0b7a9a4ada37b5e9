//! Ranges over file metrics.
use otmp::error::RuntimeError;
use otmp::ranges::{
    bounds_are_impossible, canonicalize_ranges, strongest_lower, strongest_upper, widen, Bound,
    FileMetricRange, RangeType,
};
use otmp::schema::{Field, LogicalType, PrimitiveType, Schema, TypeKind};

#[test]
fn conjunctions_keep_the_strongest_bounds_and_detect_contradictions() {
    assert_eq!(
        strongest_lower(Bound::Included(4), Bound::Excluded(4)),
        Bound::Excluded(4)
    );
    assert_eq!(
        strongest_upper(Bound::Included(9), Bound::Excluded(9)),
        Bound::Excluded(9)
    );
    assert!(!bounds_are_impossible(
        &Bound::Included(i64::MIN),
        &Bound::Included(i64::MIN)
    ));
    assert!(bounds_are_impossible(
        &Bound::Included(i64::MAX),
        &Bound::Excluded(i64::MAX)
    ));
}

#[test]
fn bounds_widen_without_changing_their_kind() {
    assert_eq!(widen(Bound::Included(-4)), Bound::Included(-4i64));
    assert_eq!(widen(Bound::Excluded(4)), Bound::Excluded(4i64));
    assert_eq!(widen(Bound::Unbounded), Bound::Unbounded);
    assert_eq!(RangeType::Date.as_str(), "date");
    assert_eq!(RangeType::Int32.as_str(), "int32");
    assert_eq!(RangeType::Int64.as_str(), "int64");
}

fn field(field_id: u32, text: &str) -> Field {
    Field {
        field_id,
        name: format!("f{field_id}"),
        required: false,
        field_type: LogicalType {
            kind: TypeKind::Primitive(PrimitiveType {
                text: text.to_owned(),
                float: false,
            }),
            children: vec![],
        },
        doc: None,
        initial_default: None,
        write_default: None,
    }
}

fn schema() -> Schema {
    Schema {
        schema_id: 1,
        parent_schema_id: None,
        doc: None,
        fields: vec![
            field(1, "{\"type\":\"int32\"}"),
            field(2, "{\"type\":\"int64\"}"),
            field(3, "{\"type\":\"date\"}"),
        ],
        identifier_field_ids: vec![],
    }
}

#[test]
fn ranges_on_one_column_are_joined() {
    let ranges = vec![
        FileMetricRange::Int64 {
            field_id: 2,
            lower: Bound::Included(1),
            upper: Bound::Unbounded,
        },
        FileMetricRange::Int32 {
            field_id: 1,
            lower: Bound::Unbounded,
            upper: Bound::Excluded(5),
        },
        FileMetricRange::Int64 {
            field_id: 2,
            lower: Bound::Excluded(1),
            upper: Bound::Included(9),
        },
        // No such column, and a column of another type.
        FileMetricRange::Int64 {
            field_id: 7,
            lower: Bound::Included(1),
            upper: Bound::Included(0),
        },
        FileMetricRange::Int32 {
            field_id: 3,
            lower: Bound::Included(1),
            upper: Bound::Included(0),
        },
    ];
    let canonical = canonicalize_ranges(&schema(), &ranges).unwrap();
    assert!(!canonical.impossible);
    assert_eq!(canonical.ranges.len(), 2);
    let first = &canonical.ranges[0];
    assert_eq!((first.field_id, first.range_type), (1, RangeType::Int32));
    assert_eq!((first.lower, first.upper), (Bound::Unbounded, Bound::Excluded(5)));
    let second = &canonical.ranges[1];
    assert_eq!((second.field_id, second.range_type), (2, RangeType::Int64));
    assert_eq!((second.lower, second.upper), (Bound::Excluded(1), Bound::Included(9)));
}

#[test]
fn contradictory_ranges_are_impossible() {
    let ranges = vec![
        FileMetricRange::Date {
            field_id: 3,
            lower: Bound::Included(10),
            upper: Bound::Unbounded,
        },
        FileMetricRange::Date {
            field_id: 3,
            lower: Bound::Unbounded,
            upper: Bound::Excluded(10),
        },
    ];
    assert!(canonicalize_ranges(&schema(), &ranges).unwrap().impossible);
}

#[test]
fn too_many_ranges_are_refused() {
    let one = FileMetricRange::Int64 {
        field_id: 2,
        lower: Bound::Unbounded,
        upper: Bound::Unbounded,
    };
    assert!(canonicalize_ranges(&schema(), &vec![one; 4096]).is_ok());
    assert!(matches!(
        canonicalize_ranges(&schema(), &vec![one; 4097]),
        Err(RuntimeError::ResourceExhausted(m)) if m == "file metric range limit is 4096"
    ));
}

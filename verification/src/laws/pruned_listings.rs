//! The queries that list files: what their conditions mean, and that a listing by
//! ranges loses no file that may hold a value of them all.
use crate::bytes::be_value;
use crate::cells::{cells_view, Cell, CellView};
use crate::queries::{
    bound_cells, branch_source, branch_sql, history_source, historical_sql, parameter, range_cells,
    range_params, range_rejection, range_row, range_rows, range_table, ranged_branch_sql,
    ranged_historical_sql, ranges_cells,
};
use crate::ranges::{Bound, CanonicalRange, RangeType};
use crate::text::decimal;
use vstd::prelude::*;

verus! {

// ------------------------------------------------------------ conditions

/// The columns that the conditions of the queries speak of.
pub enum Column {
    FileId,
    LiveFile,
    LiveRef,
    ChangedFile,
    ChangedIn,
    ChangeKind,
    RangeField,
    RangeType,
    RangeLower,
    RangeLowerIn,
    RangeUpper,
    RangeUpperIn,
    MetricFile,
    MetricField,
    MetricType,
    MetricLower,
    MetricUpper,
}

/// What a condition compares.
pub enum Operand {
    Column(Column),
    Zero,
    /// The kind of a change that adds a file.
    Addition,
    /// A numbered parameter, counted from one.
    Parameter(nat),
}

/// A condition of a query.
pub enum Test {
    IsNull(Operand),
    NotNull(Operand),
    Less(Operand, Operand),
    More(Operand, Operand),
    Same(Operand, Operand),
    Differs(Operand, Operand),
    Both(Box<Test>, Box<Test>),
    Either(Box<Test>, Box<Test>),
    Brackets(Box<Test>),
    /// No range meets a metric so that the condition holds.
    NoMetric(Box<Test>),
}

pub open spec fn column(c: Column) -> Operand {
    Operand::Column(c)
}

pub open spec fn column_name(c: Column) -> Seq<char> {
    match c {
        Column::FileId => "f.file_id"@,
        Column::LiveFile => "rf.file_id"@,
        Column::LiveRef => "rf.ref_name"@,
        Column::ChangedFile => "c.file_id"@,
        Column::ChangedIn => "c.snapshot_id"@,
        Column::ChangeKind => "c.change_kind"@,
        Column::RangeField => "q.field_id"@,
        Column::RangeType => "q.bound_type"@,
        Column::RangeLower => "q.lower_value"@,
        Column::RangeLowerIn => "q.lower_inclusive"@,
        Column::RangeUpper => "q.upper_value"@,
        Column::RangeUpperIn => "q.upper_inclusive"@,
        Column::MetricFile => "m.file_id"@,
        Column::MetricField => "m.field_id"@,
        Column::MetricType => "m.ordered_bound_type"@,
        Column::MetricLower => "m.ordered_lower_i64"@,
        Column::MetricUpper => "m.ordered_upper_i64"@,
    }
}

pub open spec fn operand_text(operand: Operand) -> Seq<char> {
    match operand {
        Operand::Column(c) => column_name(c),
        Operand::Zero => "0"@,
        Operand::Addition => "'add'"@,
        Operand::Parameter(n) => "?"@ + decimal(n),
    }
}

/// The text of a condition in the language of the queries.
pub open spec fn rendered(test: Test) -> Seq<char>
    decreases test,
{
    match test {
        Test::IsNull(a) => operand_text(a) + " IS NULL"@,
        Test::NotNull(a) => operand_text(a) + " IS NOT NULL"@,
        Test::Less(a, b) => operand_text(a) + "<"@ + operand_text(b),
        Test::More(a, b) => operand_text(a) + ">"@ + operand_text(b),
        Test::Same(a, b) => operand_text(a) + "="@ + operand_text(b),
        Test::Differs(a, b) => operand_text(a) + "<>"@ + operand_text(b),
        Test::Both(a, b) => rendered(*a) + " AND "@ + rendered(*b),
        Test::Either(a, b) => rendered(*a) + " OR "@ + rendered(*b),
        Test::Brackets(a) => "("@ + rendered(*a) + ")"@,
        Test::NoMetric(a) => "NOT EXISTS (SELECT 1 FROM ranges q CROSS JOIN otmp_file_metrics m INDEXED BY sqlite_autoindex_otmp_file_metrics_1 WHERE "@ + rendered(*a) + ")"@,
    }
}

/// The text of a condition reads as the condition: what binds less tightly stands in
/// brackets.
pub open spec fn grouped(test: Test) -> bool
    decreases test,
{
    match test {
        Test::Both(a, b) => grouped(*a) && grouped(*b) && !(*a is Either) && !(*b is Either),
        Test::Either(a, b) => grouped(*a) && grouped(*b),
        Test::Brackets(a) => grouped(*a),
        Test::NoMetric(a) => grouped(*a),
        _ => true,
    }
}

/// The rows that a condition is asked of, and the parameters of its query. A row of
/// the ranges has the six columns of the table of ranges; one of the metrics has its
/// file, its field, its type and its lower and upper bound.
pub struct Scope {
    pub file: CellView,
    pub live_file: CellView,
    pub live_ref: CellView,
    pub changed_file: CellView,
    pub changed_in: CellView,
    pub change_kind: CellView,
    pub range: Seq<CellView>,
    pub metric: Seq<CellView>,
    pub parameters: Seq<CellView>,
}

/// The tables that a condition may search.
pub struct Tables {
    pub ranges: Seq<Seq<CellView>>,
    pub metrics: Seq<Seq<CellView>>,
}

pub open spec fn value_of(operand: Operand, scope: Scope) -> CellView {
    match operand {
        Operand::Column(c) => match c {
            Column::FileId => scope.file,
            Column::LiveFile => scope.live_file,
            Column::LiveRef => scope.live_ref,
            Column::ChangedFile => scope.changed_file,
            Column::ChangedIn => scope.changed_in,
            Column::ChangeKind => scope.change_kind,
            Column::RangeField => scope.range[0],
            Column::RangeType => scope.range[1],
            Column::RangeLower => scope.range[2],
            Column::RangeLowerIn => scope.range[3],
            Column::RangeUpper => scope.range[4],
            Column::RangeUpperIn => scope.range[5],
            Column::MetricFile => scope.metric[0],
            Column::MetricField => scope.metric[1],
            Column::MetricType => scope.metric[2],
            Column::MetricLower => scope.metric[3],
            Column::MetricUpper => scope.metric[4],
        },
        Operand::Zero => CellView::Integer(0),
        Operand::Addition => CellView::Text("add"@),
        Operand::Parameter(n) => scope.parameters[n - 1],
    }
}

/// Whether a value is below another: numbers by their size, identifiers by their
/// bytes. Nothing is known of a value that is not there.
pub open spec fn lesser(a: CellView, b: CellView) -> Option<bool> {
    match (a, b) {
        (CellView::Integer(x), CellView::Integer(y)) => Some(x < y),
        (CellView::Blob(x), CellView::Blob(y)) => Some(be_value(x) < be_value(y)),
        _ => None,
    }
}

pub open spec fn alike(a: CellView, b: CellView) -> Option<bool> {
    if a is Null || b is Null {
        None
    } else {
        Some(a == b)
    }
}

pub open spec fn negated(a: Option<bool>) -> Option<bool> {
    match a {
        Some(x) => Some(!x),
        None => None,
    }
}

pub open spec fn both(a: Option<bool>, b: Option<bool>) -> Option<bool> {
    if a == Some(false) || b == Some(false) {
        Some(false)
    } else if a is None || b is None {
        None
    } else {
        Some(true)
    }
}

/// What is known of a condition: that it holds, that it does not, or nothing.
pub open spec fn holds(test: Test, scope: Scope, tables: Tables) -> Option<bool>
    decreases test,
{
    match test {
        Test::IsNull(a) => Some(value_of(a, scope) is Null),
        Test::NotNull(a) => Some(!(value_of(a, scope) is Null)),
        Test::Less(a, b) => lesser(value_of(a, scope), value_of(b, scope)),
        Test::More(a, b) => lesser(value_of(b, scope), value_of(a, scope)),
        Test::Same(a, b) => alike(value_of(a, scope), value_of(b, scope)),
        Test::Differs(a, b) => negated(alike(value_of(a, scope), value_of(b, scope))),
        Test::Both(a, b) => both(holds(*a, scope, tables), holds(*b, scope, tables)),
        Test::Either(a, b) => negated(
            both(negated(holds(*a, scope, tables)), negated(holds(*b, scope, tables))),
        ),
        Test::Brackets(a) => holds(*a, scope, tables),
        Test::NoMetric(a) => Some(
            forall|i: int, j: int|
                0 <= i < tables.ranges.len() && 0 <= j < tables.metrics.len() ==> holds(
                    *a,
                    (Scope {
                        range: #[trigger] tables.ranges[i],
                        metric: #[trigger] tables.metrics[j],
                        ..scope
                    }),
                    tables,
                ) != Some(true),
        ),
    }
}

/// A metric and a range speak of the same column of the file.
pub open spec fn joins() -> Test {
    Test::Both(Box::new(Test::Both(Box::new(Test::Same(column(Column::MetricFile), column(Column::FileId))), Box::new(Test::Same(column(Column::MetricField), column(Column::RangeField))))), Box::new(Test::Same(column(Column::MetricType), column(Column::RangeType))))
}

/// Every value that the metric allows is below the lower bound of the range.
pub open spec fn falls_below() -> Test {
    Test::Both(Box::new(Test::Both(Box::new(Test::NotNull(column(Column::RangeLower))), Box::new(Test::NotNull(column(Column::MetricUpper))))), Box::new(Test::Brackets(Box::new(Test::Either(Box::new(Test::Less(column(Column::MetricUpper), column(Column::RangeLower))), Box::new(Test::Brackets(Box::new(Test::Both(Box::new(Test::Same(column(Column::MetricUpper), column(Column::RangeLower))), Box::new(Test::Same(column(Column::RangeLowerIn), Operand::Zero)))))))))))
}

/// Every value that the metric allows is above the upper bound of the range.
pub open spec fn rises_above() -> Test {
    Test::Both(Box::new(Test::Both(Box::new(Test::NotNull(column(Column::RangeUpper))), Box::new(Test::NotNull(column(Column::MetricLower))))), Box::new(Test::Brackets(Box::new(Test::Either(Box::new(Test::More(column(Column::MetricLower), column(Column::RangeUpper))), Box::new(Test::Brackets(Box::new(Test::Both(Box::new(Test::Same(column(Column::MetricLower), column(Column::RangeUpper))), Box::new(Test::Same(column(Column::RangeUpperIn), Operand::Zero)))))))))))
}

/// The metric rules out every value of the range.
pub open spec fn rules_out() -> Test {
    Test::Both(
        Box::new(joins()),
        Box::new(
            Test::Brackets(
                Box::new(
                    Test::Either(
                        Box::new(Test::Brackets(Box::new(falls_below()))),
                        Box::new(Test::Brackets(Box::new(rises_above()))),
                    ),
                ),
            ),
        ),
    )
}

// ------------------------------------------------------------ their texts

#[verifier::rlimit(60)]
#[verifier::spinoff_prover]
proof fn lemma_joins_text()
    ensures
        rendered(joins()) == range_rejection().subrange(120, 203),
        range_rejection().len() == 547,
{
    let big = range_rejection();
    reveal_strlit("NOT EXISTS (SELECT 1 FROM ranges q CROSS JOIN otmp_file_metrics m INDEXED BY sqlite_autoindex_otmp_file_metrics_1 WHERE m.file_id=f.file_id AND m.field_id=q.field_id AND m.ordered_bound_type=q.bound_type AND ((q.lower_value IS NOT NULL AND m.ordered_upper_i64 IS NOT NULL AND (m.ordered_upper_i64<q.lower_value OR (m.ordered_upper_i64=q.lower_value AND q.lower_inclusive=0))) OR (q.upper_value IS NOT NULL AND m.ordered_lower_i64 IS NOT NULL AND (m.ordered_lower_i64>q.upper_value OR (m.ordered_lower_i64=q.upper_value AND q.upper_inclusive=0)))))");
    reveal_with_fuel(rendered, 2);
    assert(big.subrange(120, 129) =~= "m.file_id"@) by {
        reveal_strlit("m.file_id");
    }
    assert(big.subrange(129, 130) =~= "="@) by {
        reveal_strlit("=");
    }
    assert(big.subrange(130, 139) =~= "f.file_id"@) by {
        reveal_strlit("f.file_id");
    }
    assert(big.subrange(120, 139) =~= big.subrange(120, 129) + big.subrange(129, 130) + big.subrange(130, 139));
    assert(rendered(Test::Same(column(Column::MetricFile), column(Column::FileId))) == big.subrange(120, 139));
    assert(big.subrange(139, 144) =~= " AND "@) by {
        reveal_strlit(" AND ");
    }
    assert(big.subrange(144, 154) =~= "m.field_id"@) by {
        reveal_strlit("m.field_id");
    }
    assert(big.subrange(154, 155) =~= "="@) by {
        reveal_strlit("=");
    }
    assert(big.subrange(155, 165) =~= "q.field_id"@) by {
        reveal_strlit("q.field_id");
    }
    assert(big.subrange(144, 165) =~= big.subrange(144, 154) + big.subrange(154, 155) + big.subrange(155, 165));
    assert(rendered(Test::Same(column(Column::MetricField), column(Column::RangeField))) == big.subrange(144, 165));
    assert(big.subrange(120, 165) =~= big.subrange(120, 139) + big.subrange(139, 144) + big.subrange(144, 165));
    assert(rendered(Test::Both(Box::new(Test::Same(column(Column::MetricFile), column(Column::FileId))), Box::new(Test::Same(column(Column::MetricField), column(Column::RangeField))))) == big.subrange(120, 165));
    assert(big.subrange(165, 170) =~= " AND "@) by {
        reveal_strlit(" AND ");
    }
    assert(big.subrange(170, 190) =~= "m.ordered_bound_type"@) by {
        reveal_strlit("m.ordered_bound_type");
    }
    assert(big.subrange(190, 191) =~= "="@) by {
        reveal_strlit("=");
    }
    assert(big.subrange(191, 203) =~= "q.bound_type"@) by {
        reveal_strlit("q.bound_type");
    }
    assert(big.subrange(170, 203) =~= big.subrange(170, 190) + big.subrange(190, 191) + big.subrange(191, 203));
    assert(rendered(Test::Same(column(Column::MetricType), column(Column::RangeType))) == big.subrange(170, 203));
    assert(big.subrange(120, 203) =~= big.subrange(120, 165) + big.subrange(165, 170) + big.subrange(170, 203));
    assert(rendered(joins()) == big.subrange(120, 203));
}

#[verifier::rlimit(60)]
#[verifier::spinoff_prover]
proof fn lemma_below_text()
    ensures
        rendered(falls_below()) == range_rejection().subrange(210, 374),
        range_rejection().len() == 547,
{
    let big = range_rejection();
    reveal_strlit("NOT EXISTS (SELECT 1 FROM ranges q CROSS JOIN otmp_file_metrics m INDEXED BY sqlite_autoindex_otmp_file_metrics_1 WHERE m.file_id=f.file_id AND m.field_id=q.field_id AND m.ordered_bound_type=q.bound_type AND ((q.lower_value IS NOT NULL AND m.ordered_upper_i64 IS NOT NULL AND (m.ordered_upper_i64<q.lower_value OR (m.ordered_upper_i64=q.lower_value AND q.lower_inclusive=0))) OR (q.upper_value IS NOT NULL AND m.ordered_lower_i64 IS NOT NULL AND (m.ordered_lower_i64>q.upper_value OR (m.ordered_lower_i64=q.upper_value AND q.upper_inclusive=0)))))");
    reveal_with_fuel(rendered, 2);
    assert(big.subrange(210, 223) =~= "q.lower_value"@) by {
        reveal_strlit("q.lower_value");
    }
    assert(big.subrange(223, 235) =~= " IS NOT NULL"@) by {
        reveal_strlit(" IS NOT NULL");
    }
    assert(big.subrange(210, 235) =~= big.subrange(210, 223) + big.subrange(223, 235));
    assert(rendered(Test::NotNull(column(Column::RangeLower))) == big.subrange(210, 235));
    assert(big.subrange(235, 240) =~= " AND "@) by {
        reveal_strlit(" AND ");
    }
    assert(big.subrange(240, 259) =~= "m.ordered_upper_i64"@) by {
        reveal_strlit("m.ordered_upper_i64");
    }
    assert(big.subrange(259, 271) =~= " IS NOT NULL"@) by {
        reveal_strlit(" IS NOT NULL");
    }
    assert(big.subrange(240, 271) =~= big.subrange(240, 259) + big.subrange(259, 271));
    assert(rendered(Test::NotNull(column(Column::MetricUpper))) == big.subrange(240, 271));
    assert(big.subrange(210, 271) =~= big.subrange(210, 235) + big.subrange(235, 240) + big.subrange(240, 271));
    assert(rendered(Test::Both(Box::new(Test::NotNull(column(Column::RangeLower))), Box::new(Test::NotNull(column(Column::MetricUpper))))) == big.subrange(210, 271));
    assert(big.subrange(271, 276) =~= " AND "@) by {
        reveal_strlit(" AND ");
    }
    assert(big.subrange(276, 277) =~= "("@) by {
        reveal_strlit("(");
    }
    assert(big.subrange(277, 296) =~= "m.ordered_upper_i64"@) by {
        reveal_strlit("m.ordered_upper_i64");
    }
    assert(big.subrange(296, 297) =~= "<"@) by {
        reveal_strlit("<");
    }
    assert(big.subrange(297, 310) =~= "q.lower_value"@) by {
        reveal_strlit("q.lower_value");
    }
    assert(big.subrange(277, 310) =~= big.subrange(277, 296) + big.subrange(296, 297) + big.subrange(297, 310));
    assert(rendered(Test::Less(column(Column::MetricUpper), column(Column::RangeLower))) == big.subrange(277, 310));
    assert(big.subrange(310, 314) =~= " OR "@) by {
        reveal_strlit(" OR ");
    }
    assert(big.subrange(314, 315) =~= "("@) by {
        reveal_strlit("(");
    }
    assert(big.subrange(315, 334) =~= "m.ordered_upper_i64"@) by {
        reveal_strlit("m.ordered_upper_i64");
    }
    assert(big.subrange(334, 335) =~= "="@) by {
        reveal_strlit("=");
    }
    assert(big.subrange(335, 348) =~= "q.lower_value"@) by {
        reveal_strlit("q.lower_value");
    }
    assert(big.subrange(315, 348) =~= big.subrange(315, 334) + big.subrange(334, 335) + big.subrange(335, 348));
    assert(rendered(Test::Same(column(Column::MetricUpper), column(Column::RangeLower))) == big.subrange(315, 348));
    assert(big.subrange(348, 353) =~= " AND "@) by {
        reveal_strlit(" AND ");
    }
    assert(big.subrange(353, 370) =~= "q.lower_inclusive"@) by {
        reveal_strlit("q.lower_inclusive");
    }
    assert(big.subrange(370, 371) =~= "="@) by {
        reveal_strlit("=");
    }
    assert(big.subrange(371, 372) =~= "0"@) by {
        reveal_strlit("0");
    }
    assert(big.subrange(353, 372) =~= big.subrange(353, 370) + big.subrange(370, 371) + big.subrange(371, 372));
    assert(rendered(Test::Same(column(Column::RangeLowerIn), Operand::Zero)) == big.subrange(353, 372));
    assert(big.subrange(315, 372) =~= big.subrange(315, 348) + big.subrange(348, 353) + big.subrange(353, 372));
    assert(rendered(Test::Both(Box::new(Test::Same(column(Column::MetricUpper), column(Column::RangeLower))), Box::new(Test::Same(column(Column::RangeLowerIn), Operand::Zero)))) == big.subrange(315, 372));
    assert(big.subrange(372, 373) =~= ")"@) by {
        reveal_strlit(")");
    }
    assert(big.subrange(314, 373) =~= big.subrange(314, 315) + big.subrange(315, 372) + big.subrange(372, 373));
    assert(rendered(Test::Brackets(Box::new(Test::Both(Box::new(Test::Same(column(Column::MetricUpper), column(Column::RangeLower))), Box::new(Test::Same(column(Column::RangeLowerIn), Operand::Zero)))))) == big.subrange(314, 373));
    assert(big.subrange(277, 373) =~= big.subrange(277, 310) + big.subrange(310, 314) + big.subrange(314, 373));
    assert(rendered(Test::Either(Box::new(Test::Less(column(Column::MetricUpper), column(Column::RangeLower))), Box::new(Test::Brackets(Box::new(Test::Both(Box::new(Test::Same(column(Column::MetricUpper), column(Column::RangeLower))), Box::new(Test::Same(column(Column::RangeLowerIn), Operand::Zero)))))))) == big.subrange(277, 373));
    assert(big.subrange(373, 374) =~= ")"@) by {
        reveal_strlit(")");
    }
    assert(big.subrange(276, 374) =~= big.subrange(276, 277) + big.subrange(277, 373) + big.subrange(373, 374));
    assert(rendered(Test::Brackets(Box::new(Test::Either(Box::new(Test::Less(column(Column::MetricUpper), column(Column::RangeLower))), Box::new(Test::Brackets(Box::new(Test::Both(Box::new(Test::Same(column(Column::MetricUpper), column(Column::RangeLower))), Box::new(Test::Same(column(Column::RangeLowerIn), Operand::Zero)))))))))) == big.subrange(276, 374));
    assert(big.subrange(210, 374) =~= big.subrange(210, 271) + big.subrange(271, 276) + big.subrange(276, 374));
    assert(rendered(falls_below()) == big.subrange(210, 374));
}

#[verifier::rlimit(60)]
#[verifier::spinoff_prover]
proof fn lemma_above_text()
    ensures
        rendered(rises_above()) == range_rejection().subrange(380, 544),
        range_rejection().len() == 547,
{
    let big = range_rejection();
    reveal_strlit("NOT EXISTS (SELECT 1 FROM ranges q CROSS JOIN otmp_file_metrics m INDEXED BY sqlite_autoindex_otmp_file_metrics_1 WHERE m.file_id=f.file_id AND m.field_id=q.field_id AND m.ordered_bound_type=q.bound_type AND ((q.lower_value IS NOT NULL AND m.ordered_upper_i64 IS NOT NULL AND (m.ordered_upper_i64<q.lower_value OR (m.ordered_upper_i64=q.lower_value AND q.lower_inclusive=0))) OR (q.upper_value IS NOT NULL AND m.ordered_lower_i64 IS NOT NULL AND (m.ordered_lower_i64>q.upper_value OR (m.ordered_lower_i64=q.upper_value AND q.upper_inclusive=0)))))");
    reveal_with_fuel(rendered, 2);
    assert(big.subrange(380, 393) =~= "q.upper_value"@) by {
        reveal_strlit("q.upper_value");
    }
    assert(big.subrange(393, 405) =~= " IS NOT NULL"@) by {
        reveal_strlit(" IS NOT NULL");
    }
    assert(big.subrange(380, 405) =~= big.subrange(380, 393) + big.subrange(393, 405));
    assert(rendered(Test::NotNull(column(Column::RangeUpper))) == big.subrange(380, 405));
    assert(big.subrange(405, 410) =~= " AND "@) by {
        reveal_strlit(" AND ");
    }
    assert(big.subrange(410, 429) =~= "m.ordered_lower_i64"@) by {
        reveal_strlit("m.ordered_lower_i64");
    }
    assert(big.subrange(429, 441) =~= " IS NOT NULL"@) by {
        reveal_strlit(" IS NOT NULL");
    }
    assert(big.subrange(410, 441) =~= big.subrange(410, 429) + big.subrange(429, 441));
    assert(rendered(Test::NotNull(column(Column::MetricLower))) == big.subrange(410, 441));
    assert(big.subrange(380, 441) =~= big.subrange(380, 405) + big.subrange(405, 410) + big.subrange(410, 441));
    assert(rendered(Test::Both(Box::new(Test::NotNull(column(Column::RangeUpper))), Box::new(Test::NotNull(column(Column::MetricLower))))) == big.subrange(380, 441));
    assert(big.subrange(441, 446) =~= " AND "@) by {
        reveal_strlit(" AND ");
    }
    assert(big.subrange(446, 447) =~= "("@) by {
        reveal_strlit("(");
    }
    assert(big.subrange(447, 466) =~= "m.ordered_lower_i64"@) by {
        reveal_strlit("m.ordered_lower_i64");
    }
    assert(big.subrange(466, 467) =~= ">"@) by {
        reveal_strlit(">");
    }
    assert(big.subrange(467, 480) =~= "q.upper_value"@) by {
        reveal_strlit("q.upper_value");
    }
    assert(big.subrange(447, 480) =~= big.subrange(447, 466) + big.subrange(466, 467) + big.subrange(467, 480));
    assert(rendered(Test::More(column(Column::MetricLower), column(Column::RangeUpper))) == big.subrange(447, 480));
    assert(big.subrange(480, 484) =~= " OR "@) by {
        reveal_strlit(" OR ");
    }
    assert(big.subrange(484, 485) =~= "("@) by {
        reveal_strlit("(");
    }
    assert(big.subrange(485, 504) =~= "m.ordered_lower_i64"@) by {
        reveal_strlit("m.ordered_lower_i64");
    }
    assert(big.subrange(504, 505) =~= "="@) by {
        reveal_strlit("=");
    }
    assert(big.subrange(505, 518) =~= "q.upper_value"@) by {
        reveal_strlit("q.upper_value");
    }
    assert(big.subrange(485, 518) =~= big.subrange(485, 504) + big.subrange(504, 505) + big.subrange(505, 518));
    assert(rendered(Test::Same(column(Column::MetricLower), column(Column::RangeUpper))) == big.subrange(485, 518));
    assert(big.subrange(518, 523) =~= " AND "@) by {
        reveal_strlit(" AND ");
    }
    assert(big.subrange(523, 540) =~= "q.upper_inclusive"@) by {
        reveal_strlit("q.upper_inclusive");
    }
    assert(big.subrange(540, 541) =~= "="@) by {
        reveal_strlit("=");
    }
    assert(big.subrange(541, 542) =~= "0"@) by {
        reveal_strlit("0");
    }
    assert(big.subrange(523, 542) =~= big.subrange(523, 540) + big.subrange(540, 541) + big.subrange(541, 542));
    assert(rendered(Test::Same(column(Column::RangeUpperIn), Operand::Zero)) == big.subrange(523, 542));
    assert(big.subrange(485, 542) =~= big.subrange(485, 518) + big.subrange(518, 523) + big.subrange(523, 542));
    assert(rendered(Test::Both(Box::new(Test::Same(column(Column::MetricLower), column(Column::RangeUpper))), Box::new(Test::Same(column(Column::RangeUpperIn), Operand::Zero)))) == big.subrange(485, 542));
    assert(big.subrange(542, 543) =~= ")"@) by {
        reveal_strlit(")");
    }
    assert(big.subrange(484, 543) =~= big.subrange(484, 485) + big.subrange(485, 542) + big.subrange(542, 543));
    assert(rendered(Test::Brackets(Box::new(Test::Both(Box::new(Test::Same(column(Column::MetricLower), column(Column::RangeUpper))), Box::new(Test::Same(column(Column::RangeUpperIn), Operand::Zero)))))) == big.subrange(484, 543));
    assert(big.subrange(447, 543) =~= big.subrange(447, 480) + big.subrange(480, 484) + big.subrange(484, 543));
    assert(rendered(Test::Either(Box::new(Test::More(column(Column::MetricLower), column(Column::RangeUpper))), Box::new(Test::Brackets(Box::new(Test::Both(Box::new(Test::Same(column(Column::MetricLower), column(Column::RangeUpper))), Box::new(Test::Same(column(Column::RangeUpperIn), Operand::Zero)))))))) == big.subrange(447, 543));
    assert(big.subrange(543, 544) =~= ")"@) by {
        reveal_strlit(")");
    }
    assert(big.subrange(446, 544) =~= big.subrange(446, 447) + big.subrange(447, 543) + big.subrange(543, 544));
    assert(rendered(Test::Brackets(Box::new(Test::Either(Box::new(Test::More(column(Column::MetricLower), column(Column::RangeUpper))), Box::new(Test::Brackets(Box::new(Test::Both(Box::new(Test::Same(column(Column::MetricLower), column(Column::RangeUpper))), Box::new(Test::Same(column(Column::RangeUpperIn), Operand::Zero)))))))))) == big.subrange(446, 544));
    assert(big.subrange(380, 544) =~= big.subrange(380, 441) + big.subrange(441, 446) + big.subrange(446, 544));
    assert(rendered(rises_above()) == big.subrange(380, 544));
}

/// The text that keeps a file unless a range rules it out says just that: no metric
/// of the file rules out every value of a range.
#[verifier::rlimit(60)]
#[verifier::spinoff_prover]
pub proof fn lemma_rejection_text()
    ensures
        range_rejection() == rendered(Test::NoMetric(Box::new(rules_out()))),
        grouped(Test::NoMetric(Box::new(rules_out()))),
{
    let big = range_rejection();
    lemma_joins_text();
    lemma_below_text();
    lemma_above_text();
    reveal_strlit("NOT EXISTS (SELECT 1 FROM ranges q CROSS JOIN otmp_file_metrics m INDEXED BY sqlite_autoindex_otmp_file_metrics_1 WHERE m.file_id=f.file_id AND m.field_id=q.field_id AND m.ordered_bound_type=q.bound_type AND ((q.lower_value IS NOT NULL AND m.ordered_upper_i64 IS NOT NULL AND (m.ordered_upper_i64<q.lower_value OR (m.ordered_upper_i64=q.lower_value AND q.lower_inclusive=0))) OR (q.upper_value IS NOT NULL AND m.ordered_lower_i64 IS NOT NULL AND (m.ordered_lower_i64>q.upper_value OR (m.ordered_lower_i64=q.upper_value AND q.upper_inclusive=0)))))");
    reveal_with_fuel(rendered, 2);
    assert(big.subrange(0, 120) =~= "NOT EXISTS (SELECT 1 FROM ranges q CROSS JOIN otmp_file_metrics m INDEXED BY sqlite_autoindex_otmp_file_metrics_1 WHERE "@) by {
        reveal_strlit("NOT EXISTS (SELECT 1 FROM ranges q CROSS JOIN otmp_file_metrics m INDEXED BY sqlite_autoindex_otmp_file_metrics_1 WHERE ");
    }
    assert(big.subrange(203, 208) =~= " AND "@) by {
        reveal_strlit(" AND ");
    }
    assert(big.subrange(208, 209) =~= "("@) by {
        reveal_strlit("(");
    }
    assert(big.subrange(209, 210) =~= "("@) by {
        reveal_strlit("(");
    }
    assert(big.subrange(374, 375) =~= ")"@) by {
        reveal_strlit(")");
    }
    assert(big.subrange(375, 379) =~= " OR "@) by {
        reveal_strlit(" OR ");
    }
    assert(big.subrange(379, 380) =~= "("@) by {
        reveal_strlit("(");
    }
    assert(big.subrange(544, 545) =~= ")"@) by {
        reveal_strlit(")");
    }
    assert(big.subrange(545, 546) =~= ")"@) by {
        reveal_strlit(")");
    }
    assert(big.subrange(546, 547) =~= ")"@) by {
        reveal_strlit(")");
    }
    assert(big.subrange(209, 375) =~= big.subrange(209, 210) + big.subrange(210, 374) + big.subrange(374, 375));
    assert(rendered(Test::Brackets(Box::new(falls_below()))) == big.subrange(209, 375));
    assert(big.subrange(379, 545) =~= big.subrange(379, 380) + big.subrange(380, 544) + big.subrange(544, 545));
    assert(rendered(Test::Brackets(Box::new(rises_above()))) == big.subrange(379, 545));
    assert(big.subrange(209, 545) =~= big.subrange(209, 375) + big.subrange(375, 379) + big.subrange(379, 545));
    assert(rendered(Test::Either(Box::new(Test::Brackets(Box::new(falls_below()))), Box::new(Test::Brackets(Box::new(rises_above()))))) == big.subrange(209, 545));
    assert(big.subrange(208, 546) =~= big.subrange(208, 209) + big.subrange(209, 545) + big.subrange(545, 546));
    assert(rendered(Test::Brackets(Box::new(Test::Either(Box::new(Test::Brackets(Box::new(falls_below()))), Box::new(Test::Brackets(Box::new(rises_above()))))))) == big.subrange(208, 546));
    assert(big.subrange(120, 546) =~= big.subrange(120, 203) + big.subrange(203, 208) + big.subrange(208, 546));
    assert(rendered(rules_out()) == big.subrange(120, 546));
    assert(big.subrange(0, 547) =~= big.subrange(0, 120) + big.subrange(120, 546) + big.subrange(546, 547));
    assert(rendered(Test::NoMetric(Box::new(rules_out()))) == big.subrange(0, 547));
    assert(big.subrange(0, 547) =~= big);
    lemma_grouped();
}
proof fn lemma_grouped()
    ensures
        grouped(Test::NoMetric(Box::new(rules_out()))),
{
    assert(grouped(joins())) by {
        reveal_with_fuel(grouped, 6);
    }
    assert(grouped(falls_below())) by {
        reveal_with_fuel(grouped, 8);
    }
    assert(grouped(rises_above())) by {
        reveal_with_fuel(grouped, 8);
    }
    let either = Test::Either(
        Box::new(Test::Brackets(Box::new(falls_below()))),
        Box::new(Test::Brackets(Box::new(rises_above()))),
    );
    assert(grouped(Test::Brackets(Box::new(falls_below()))));
    assert(grouped(Test::Brackets(Box::new(rises_above()))));
    assert(grouped(either));
    assert(grouped(Test::Brackets(Box::new(either))));
    assert(grouped(rules_out()));
}

// ------------------------------------------------------------ their meaning

/// A metric of a file, with the bounds that it stores.
pub struct StoredMetric {
    pub file: Seq<u8>,
    pub field: i64,
    pub kind: Seq<char>,
    pub lower: Option<i64>,
    pub upper: Option<i64>,
}

pub open spec fn stored_bound(bound: Option<i64>) -> CellView {
    match bound {
        None => CellView::Null,
        Some(n) => CellView::Integer(n),
    }
}

/// The row of a metric.
pub open spec fn metric_row(metric: StoredMetric) -> Seq<CellView> {
    seq![
        CellView::Blob(metric.file),
        CellView::Integer(metric.field),
        CellView::Text(metric.kind),
        stored_bound(metric.lower),
        stored_bound(metric.upper),
    ]
}

/// A value is not below the lower end of a range.
pub open spec fn reaches(range: CanonicalRange, x: int) -> bool {
    match range.lower {
        Bound::Included(a) => a <= x,
        Bound::Excluded(a) => a < x,
        Bound::Unbounded => true,
    }
}

/// A value is not above the upper end of a range.
pub open spec fn stays_within(range: CanonicalRange, x: int) -> bool {
    match range.upper {
        Bound::Included(a) => x <= a,
        Bound::Excluded(a) => x < a,
        Bound::Unbounded => true,
    }
}

/// The name under which metrics of a type are stored.
pub open spec fn stored_type(kind: RangeType) -> Seq<char> {
    match kind {
        RangeType::Int32 => "int32"@,
        RangeType::Int64 => "int64"@,
        RangeType::Date => "date"@,
    }
}

/// The metric is one of the file, on the column of the range.
pub open spec fn concerns(range: CanonicalRange, metric: StoredMetric, file: Seq<u8>) -> bool {
    &&& metric.file == file
    &&& metric.field == range.field_id
    &&& metric.kind == stored_type(range.range_type)
}

/// No value up to the stored upper bound reaches the range, or none from the stored
/// lower bound on stays within it.
pub open spec fn excludes(range: CanonicalRange, metric: StoredMetric) -> bool {
    ||| metric.upper matches Some(u) && forall|x: int| x <= u ==> !#[trigger] reaches(range, x)
    ||| metric.lower matches Some(l) && forall|x: int| x >= l ==> !#[trigger] stays_within(range, x)
}

/// A metric that allows a value of a range does not exclude the range.
pub proof fn lemma_allowed_value(range: CanonicalRange, metric: StoredMetric, x: int)
    requires
        metric.lower matches Some(l) ==> l <= x,
        metric.upper matches Some(u) ==> x <= u,
        reaches(range, x),
        stays_within(range, x),
    ensures
        !excludes(range, metric),
{
}

proof fn lemma_excludes(range: CanonicalRange, metric: StoredMetric)
    ensures
        excludes(range, metric) <==> {
            ||| metric.upper matches Some(u) && !reaches(range, u as int)
            ||| metric.lower matches Some(l) && !stays_within(range, l as int)
        },
{
    if let Some(u) = metric.upper {
        if !reaches(range, u as int) {
            assert forall|x: int| x <= u implies !#[trigger] reaches(range, x) by {}
        }
    }
    if let Some(l) = metric.lower {
        if !stays_within(range, l as int) {
            assert forall|x: int| x >= l implies !#[trigger] stays_within(range, x) by {}
        }
    }
}

#[verifier::rlimit(60)]
#[verifier::spinoff_prover]
proof fn lemma_rules_out(
    range: CanonicalRange,
    metric: StoredMetric,
    file: Seq<u8>,
    scope: Scope,
    tables: Tables,
)
    requires
        scope.file == CellView::Blob(file),
        scope.range == range_cells(range),
        scope.metric == metric_row(metric),
    ensures
        holds(rules_out(), scope, tables) == Some(true) <==> concerns(range, metric, file)
            && excludes(range, metric),
{
    lemma_excludes(range, metric);
    let r = scope.range;
    let head = seq![
        CellView::Integer(range.field_id as i64),
        CellView::Text(range.range_type.spec_text()),
    ];
    assert(r =~= head + bound_cells(range.lower) + bound_cells(range.upper));
    assert(r[0] == CellView::Integer(range.field_id as i64));
    assert(r[1] == CellView::Text(stored_type(range.range_type)));
    assert(r[2] == bound_cells(range.lower)[0]);
    assert(r[3] == bound_cells(range.lower)[1]);
    assert(r[4] == bound_cells(range.upper)[0]);
    assert(r[5] == bound_cells(range.upper)[1]);
    assert(holds(joins(), scope, tables) == Some(concerns(range, metric, file))) by {
        reveal_with_fuel(holds, 5);
    }
    assert(holds(falls_below(), scope, tables) == Some(
        metric.upper matches Some(u) && !reaches(range, u as int),
    )) by {
        reveal_with_fuel(holds, 7);
    }
    assert(holds(rises_above(), scope, tables) == Some(
        metric.lower matches Some(l) && !stays_within(range, l as int),
    )) by {
        reveal_with_fuel(holds, 7);
    }
    let below = Test::Brackets(Box::new(falls_below()));
    let above = Test::Brackets(Box::new(rises_above()));
    let either = Test::Either(Box::new(below), Box::new(above));
    assert(holds(below, scope, tables) == holds(falls_below(), scope, tables));
    assert(holds(above, scope, tables) == holds(rises_above(), scope, tables));
    assert(holds(either, scope, tables) == Some(excludes(range, metric)));
    assert(holds(Test::Brackets(Box::new(either)), scope, tables) == holds(either, scope, tables));
}

/// The rows of the table of ranges: each takes the next six parameters.
pub open spec fn range_table_rows(parameters: Seq<CellView>, count: nat) -> Seq<Seq<CellView>> {
    Seq::new(count, |i: int| Seq::new(6, |k: int| parameters[6 * i + k]))
}

pub open spec fn metric_rows(metrics: Seq<StoredMetric>) -> Seq<Seq<CellView>> {
    Seq::new(metrics.len(), |j: int| metric_row(metrics[j]))
}

/// No range rules the file out.
pub open spec fn may_match(
    ranges: Seq<CanonicalRange>,
    metrics: Seq<StoredMetric>,
    file: Seq<u8>,
) -> bool {
    forall|i: int, j: int|
        0 <= i < ranges.len() && 0 <= j < metrics.len() && concerns(
            #[trigger] ranges[i],
            #[trigger] metrics[j],
            file,
        ) ==> !excludes(ranges[i], metrics[j])
}

proof fn lemma_range_cells_len(range: CanonicalRange)
    ensures
        range_cells(range).len() == 6,
{
}

proof fn lemma_ranges_cells(ranges: Seq<CanonicalRange>, i: int, k: int)
    requires
        0 <= i < ranges.len(),
        0 <= k < 6,
    ensures
        ranges_cells(ranges).len() == 6 * ranges.len(),
        ranges_cells(ranges)[6 * i + k] == range_cells(ranges[i])[k],
    decreases ranges.len(),
{
    let front = ranges.drop_last();
    lemma_range_cells_len(ranges.last());
    if front.len() == 0 {
        assert(ranges_cells(front) =~= Seq::<CellView>::empty());
    } else if i < front.len() {
        lemma_ranges_cells(front, i, k);
        assert(front[i] == ranges[i]);
    } else {
        lemma_ranges_cells(front, 0, 0);
    }
}

/// The condition on the metrics of a file holds exactly if no range rules the file
/// out.
pub proof fn lemma_rejection_meaning(
    ranges: Seq<CanonicalRange>,
    metrics: Seq<StoredMetric>,
    file: Seq<u8>,
    scope: Scope,
    tables: Tables,
)
    requires
        scope.file == CellView::Blob(file),
        scope.parameters.len() >= 6 * ranges.len(),
        scope.parameters.take((6 * ranges.len()) as int) == ranges_cells(ranges),
        tables.ranges == range_table_rows(scope.parameters, ranges.len()),
        tables.metrics == metric_rows(metrics),
    ensures
        holds(Test::NoMetric(Box::new(rules_out())), scope, tables) == Some(
            may_match(ranges, metrics, file),
        ),
{
    let test = rules_out();
    assert forall|i: int| 0 <= i < ranges.len() implies #[trigger] tables.ranges[i] == range_cells(
        ranges[i],
    ) by {
        let row = tables.ranges[i];
        lemma_range_cells_len(ranges[i]);
        assert forall|k: int| 0 <= k < 6 implies row[k] == range_cells(ranges[i])[k] by {
            lemma_ranges_cells(ranges, i, k);
            assert(scope.parameters[6 * i + k] == scope.parameters.take(
                (6 * ranges.len()) as int,
            )[6 * i + k]);
        }
        assert(row =~= range_cells(ranges[i]));
    }
    assert forall|i: int, j: int| 0 <= i < ranges.len() && 0 <= j < metrics.len() implies (holds(
        test,
        (Scope {
            range: #[trigger] tables.ranges[i],
            metric: #[trigger] tables.metrics[j],
            ..scope
        }),
        tables,
    ) == Some(true) <==> concerns(ranges[i], metrics[j], file) && excludes(
        ranges[i],
        metrics[j],
    )) by {
        lemma_rules_out(
            ranges[i],
            metrics[j],
            file,
            (Scope { range: tables.ranges[i], metric: tables.metrics[j], ..scope }),
            tables,
        );
    }
    if may_match(ranges, metrics, file) {
        assert forall|i: int, j: int|
            0 <= i < tables.ranges.len() && 0 <= j < tables.metrics.len() implies holds(
            test,
            (Scope {
                range: #[trigger] tables.ranges[i],
                metric: #[trigger] tables.metrics[j],
                ..scope
            }),
            tables,
        ) != Some(true) by {
            assert(concerns(ranges[i], metrics[j], file) ==> !excludes(ranges[i], metrics[j]));
        }
    } else {
        let (i, j) = choose|i: int, j: int|
            0 <= i < ranges.len() && 0 <= j < metrics.len() && concerns(
                #[trigger] ranges[i],
                #[trigger] metrics[j],
                file,
            ) && excludes(ranges[i], metrics[j]);
        assert(holds(
            test,
            (Scope { range: tables.ranges[i], metric: tables.metrics[j], ..scope }),
            tables,
        ) == Some(true));
    }
}

// ------------------------------------------------------- whole queries

/// The condition of a listing of a branch, by so many ranges.
pub open spec fn branch_test(count: nat, after: bool) -> Test {
    let name = Test::Same(column(Column::LiveRef), Operand::Parameter(6 * count + 1));
    let kept = Test::NoMetric(Box::new(rules_out()));
    if after {
        Test::Both(
            Box::new(
                Test::Both(
                    Box::new(name),
                    Box::new(
                        Test::More(column(Column::LiveFile), Operand::Parameter(6 * count + 2)),
                    ),
                ),
            ),
            Box::new(kept),
        )
    } else {
        Test::Both(Box::new(name), Box::new(kept))
    }
}

/// The condition of a listing of the changes of a snapshot, by so many ranges.
pub open spec fn history_test(count: nat) -> Test {
    Test::Both(
        Box::new(changed_after(6 * count + 1)),
        Box::new(
            Test::Brackets(
                Box::new(
                    Test::Either(
                        Box::new(Test::Differs(column(Column::ChangeKind), Operand::Addition)),
                        Box::new(Test::NoMetric(Box::new(rules_out()))),
                    ),
                ),
            ),
        ),
    )
}

/// A change of the snapshot that the parameter names, behind the file that the next
/// one names, where it names one.
pub open spec fn changed_after(n: nat) -> Test {
    Test::Both(
        Box::new(Test::Same(column(Column::ChangedIn), Operand::Parameter(n))),
        Box::new(
            Test::Brackets(
                Box::new(
                    Test::Either(
                        Box::new(Test::IsNull(Operand::Parameter(n + 1))),
                        Box::new(
                            Test::More(column(Column::ChangedFile), Operand::Parameter(n + 1)),
                        ),
                    ),
                ),
            ),
        ),
    )
}

/// The numbers of the parameters of the table of ranges, row by row.
pub open spec fn range_numbers(count: nat) -> Seq<Seq<nat>> {
    Seq::new(count, |i: int| Seq::new(6, |k: int| (6 * i + k + 1) as nat))
}

pub open spec fn numbers_text(numbers: Seq<nat>) -> Seq<char>
    decreases numbers.len(),
{
    if numbers.len() == 0 {
        Seq::empty()
    } else if numbers.len() == 1 {
        "?"@ + decimal(numbers[0])
    } else {
        numbers_text(numbers.drop_last()) + ","@ + ("?"@ + decimal(numbers.last()))
    }
}

/// Rows of numbered parameters, as they are written.
pub open spec fn values_text(rows: Seq<Seq<nat>>) -> Seq<char>
    decreases rows.len(),
{
    if rows.len() == 0 {
        Seq::empty()
    } else if rows.len() == 1 {
        "("@ + numbers_text(rows[0]) + ")"@
    } else {
        values_text(rows.drop_last()) + ","@ + ("("@ + numbers_text(rows.last()) + ")"@)
    }
}

/// The table of ranges, with its columns in the order in which a row gives them.
pub open spec fn range_table_text(count: nat) -> Seq<char> {
    "WITH ranges("@ + "field_id"@ + ","@ + "bound_type"@ + ","@ + "lower_value"@ + ","@
        + "lower_inclusive"@ + ","@ + "upper_value"@ + ","@ + "upper_inclusive"@ + ") AS (VALUES "@
        + values_text(range_numbers(count)) + ")"@
}

proof fn lemma_range_row(i: nat)
    ensures
        range_row(i) == "("@ + numbers_text(Seq::new(6, |k: int| (6 * i + k + 1) as nat)) + ")"@,
{
    let n = Seq::new(6, |k: int| (6 * i + k + 1) as nat);
    let n5 = n.drop_last();
    let n4 = n5.drop_last();
    let n3 = n4.drop_last();
    let n2 = n3.drop_last();
    let n1 = n2.drop_last();
    let p = |k: nat| "?"@ + decimal(k);
    assert(numbers_text(n1) == "?"@ + decimal(i * 6 + 1));
    assert(numbers_text(n2) == numbers_text(n1) + ","@ + ("?"@ + decimal(i * 6 + 2)));
    assert(numbers_text(n3) == numbers_text(n2) + ","@ + ("?"@ + decimal(i * 6 + 3)));
    assert(numbers_text(n4) == numbers_text(n3) + ","@ + ("?"@ + decimal(i * 6 + 4)));
    assert(numbers_text(n5) == numbers_text(n4) + ","@ + ("?"@ + decimal(i * 6 + 5)));
    assert(numbers_text(n) == numbers_text(n5) + ","@ + ("?"@ + decimal(i * 6 + 6)));
    assert(range_row(i) =~= "("@ + numbers_text(n) + ")"@);
}

proof fn lemma_range_rows(count: nat)
    ensures
        range_rows(count) == values_text(range_numbers(count)),
    decreases count,
{
    let rows = range_numbers(count);
    if count > 0 {
        let last = (count - 1) as nat;
        lemma_range_row(last);
        assert(rows.last() =~= Seq::new(6, |k: int| (6 * last + k + 1) as nat));
        if count == 1 {
            assert(rows[0] == rows.last());
        } else {
            lemma_range_rows(last);
            assert(rows.drop_last() =~= range_numbers(last));
        }
    }
}
proof fn lemma_split_table()
    ensures
        "WITH ranges(field_id,bound_type,lower_value,lower_inclusive,upper_value,upper_inclusive) AS (VALUES "@ == "WITH ranges("@ + "field_id"@ + ","@ + "bound_type"@ + ","@ + "lower_value"@ + ","@ + "lower_inclusive"@ + ","@ + "upper_value"@ + ","@ + "upper_inclusive"@ + ") AS (VALUES "@,
{
    let big = "WITH ranges(field_id,bound_type,lower_value,lower_inclusive,upper_value,upper_inclusive) AS (VALUES "@;
    reveal_strlit("WITH ranges(field_id,bound_type,lower_value,lower_inclusive,upper_value,upper_inclusive) AS (VALUES ");
    reveal_strlit(") AS (VALUES ");
    reveal_strlit(",");
    reveal_strlit("WITH ranges(");
    reveal_strlit("bound_type");
    reveal_strlit("field_id");
    reveal_strlit("lower_inclusive");
    reveal_strlit("lower_value");
    reveal_strlit("upper_inclusive");
    reveal_strlit("upper_value");
    assert(big.subrange(0, 12) =~= "WITH ranges("@);
    assert(big.subrange(12, 20) =~= "field_id"@);
    assert(big.subrange(0, 20) =~= big.subrange(0, 12) + big.subrange(12, 20));
    assert(big.subrange(20, 21) =~= ","@);
    assert(big.subrange(0, 21) =~= big.subrange(0, 20) + big.subrange(20, 21));
    assert(big.subrange(21, 31) =~= "bound_type"@);
    assert(big.subrange(0, 31) =~= big.subrange(0, 21) + big.subrange(21, 31));
    assert(big.subrange(31, 32) =~= ","@);
    assert(big.subrange(0, 32) =~= big.subrange(0, 31) + big.subrange(31, 32));
    assert(big.subrange(32, 43) =~= "lower_value"@);
    assert(big.subrange(0, 43) =~= big.subrange(0, 32) + big.subrange(32, 43));
    assert(big.subrange(43, 44) =~= ","@);
    assert(big.subrange(0, 44) =~= big.subrange(0, 43) + big.subrange(43, 44));
    assert(big.subrange(44, 59) =~= "lower_inclusive"@);
    assert(big.subrange(0, 59) =~= big.subrange(0, 44) + big.subrange(44, 59));
    assert(big.subrange(59, 60) =~= ","@);
    assert(big.subrange(0, 60) =~= big.subrange(0, 59) + big.subrange(59, 60));
    assert(big.subrange(60, 71) =~= "upper_value"@);
    assert(big.subrange(0, 71) =~= big.subrange(0, 60) + big.subrange(60, 71));
    assert(big.subrange(71, 72) =~= ","@);
    assert(big.subrange(0, 72) =~= big.subrange(0, 71) + big.subrange(71, 72));
    assert(big.subrange(72, 87) =~= "upper_inclusive"@);
    assert(big.subrange(0, 87) =~= big.subrange(0, 72) + big.subrange(72, 87));
    assert(big.subrange(87, 100) =~= ") AS (VALUES "@);
    assert(big.subrange(0, 100) =~= big.subrange(0, 87) + big.subrange(87, 100));
    assert(big.subrange(0, 100) =~= big);
}

proof fn lemma_split_name()
    ensures
        " WHERE rf.ref_name="@ == " WHERE "@ + "rf.ref_name"@ + "="@,
{
    let big = " WHERE rf.ref_name="@;
    reveal_strlit(" WHERE rf.ref_name=");
    reveal_strlit(" WHERE ");
    reveal_strlit("=");
    reveal_strlit("rf.ref_name");
    assert(big.subrange(0, 7) =~= " WHERE "@);
    assert(big.subrange(7, 18) =~= "rf.ref_name"@);
    assert(big.subrange(0, 18) =~= big.subrange(0, 7) + big.subrange(7, 18));
    assert(big.subrange(18, 19) =~= "="@);
    assert(big.subrange(0, 19) =~= big.subrange(0, 18) + big.subrange(18, 19));
    assert(big.subrange(0, 19) =~= big);
}

proof fn lemma_split_after()
    ensures
        " AND rf.file_id>"@ == " AND "@ + "rf.file_id"@ + ">"@,
{
    let big = " AND rf.file_id>"@;
    reveal_strlit(" AND rf.file_id>");
    reveal_strlit(" AND ");
    reveal_strlit(">");
    reveal_strlit("rf.file_id");
    assert(big.subrange(0, 5) =~= " AND "@);
    assert(big.subrange(5, 15) =~= "rf.file_id"@);
    assert(big.subrange(0, 15) =~= big.subrange(0, 5) + big.subrange(5, 15));
    assert(big.subrange(15, 16) =~= ">"@);
    assert(big.subrange(0, 16) =~= big.subrange(0, 15) + big.subrange(15, 16));
    assert(big.subrange(0, 16) =~= big);
}

proof fn lemma_split_changed_in()
    ensures
        " WHERE c.snapshot_id="@ == " WHERE "@ + "c.snapshot_id"@ + "="@,
{
    let big = " WHERE c.snapshot_id="@;
    reveal_strlit(" WHERE c.snapshot_id=");
    reveal_strlit(" WHERE ");
    reveal_strlit("=");
    reveal_strlit("c.snapshot_id");
    assert(big.subrange(0, 7) =~= " WHERE "@);
    assert(big.subrange(7, 20) =~= "c.snapshot_id"@);
    assert(big.subrange(0, 20) =~= big.subrange(0, 7) + big.subrange(7, 20));
    assert(big.subrange(20, 21) =~= "="@);
    assert(big.subrange(0, 21) =~= big.subrange(0, 20) + big.subrange(20, 21));
    assert(big.subrange(0, 21) =~= big);
}

proof fn lemma_split_open()
    ensures
        " AND ("@ == " AND "@ + "("@,
{
    let big = " AND ("@;
    reveal_strlit(" AND (");
    reveal_strlit(" AND ");
    reveal_strlit("(");
    assert(big.subrange(0, 5) =~= " AND "@);
    assert(big.subrange(5, 6) =~= "("@);
    assert(big.subrange(0, 6) =~= big.subrange(0, 5) + big.subrange(5, 6));
    assert(big.subrange(0, 6) =~= big);
}

proof fn lemma_split_changed_file()
    ensures
        " IS NULL OR c.file_id>"@ == " IS NULL"@ + " OR "@ + "c.file_id"@ + ">"@,
{
    let big = " IS NULL OR c.file_id>"@;
    reveal_strlit(" IS NULL OR c.file_id>");
    reveal_strlit(" IS NULL");
    reveal_strlit(" OR ");
    reveal_strlit(">");
    reveal_strlit("c.file_id");
    assert(big.subrange(0, 8) =~= " IS NULL"@);
    assert(big.subrange(8, 12) =~= " OR "@);
    assert(big.subrange(0, 12) =~= big.subrange(0, 8) + big.subrange(8, 12));
    assert(big.subrange(12, 21) =~= "c.file_id"@);
    assert(big.subrange(0, 21) =~= big.subrange(0, 12) + big.subrange(12, 21));
    assert(big.subrange(21, 22) =~= ">"@);
    assert(big.subrange(0, 22) =~= big.subrange(0, 21) + big.subrange(21, 22));
    assert(big.subrange(0, 22) =~= big);
}

proof fn lemma_split_kind()
    ensures
        ") AND (c.change_kind<>'add' OR "@ == ")"@ + " AND "@ + "("@ + "c.change_kind"@ + "<>"@ + "'add'"@ + " OR "@,
{
    let big = ") AND (c.change_kind<>'add' OR "@;
    reveal_strlit(") AND (c.change_kind<>'add' OR ");
    reveal_strlit(" AND ");
    reveal_strlit(" OR ");
    reveal_strlit("'add'");
    reveal_strlit("(");
    reveal_strlit(")");
    reveal_strlit("<>");
    reveal_strlit("c.change_kind");
    assert(big.subrange(0, 1) =~= ")"@);
    assert(big.subrange(1, 6) =~= " AND "@);
    assert(big.subrange(0, 6) =~= big.subrange(0, 1) + big.subrange(1, 6));
    assert(big.subrange(6, 7) =~= "("@);
    assert(big.subrange(0, 7) =~= big.subrange(0, 6) + big.subrange(6, 7));
    assert(big.subrange(7, 20) =~= "c.change_kind"@);
    assert(big.subrange(0, 20) =~= big.subrange(0, 7) + big.subrange(7, 20));
    assert(big.subrange(20, 22) =~= "<>"@);
    assert(big.subrange(0, 22) =~= big.subrange(0, 20) + big.subrange(20, 22));
    assert(big.subrange(22, 27) =~= "'add'"@);
    assert(big.subrange(0, 27) =~= big.subrange(0, 22) + big.subrange(22, 27));
    assert(big.subrange(27, 31) =~= " OR "@);
    assert(big.subrange(0, 31) =~= big.subrange(0, 27) + big.subrange(27, 31));
    assert(big.subrange(0, 31) =~= big);
}

proof fn lemma_split_order()
    ensures
        ") ORDER BY c.file_id LIMIT "@ == ")"@ + " ORDER BY c.file_id LIMIT "@,
{
    let big = ") ORDER BY c.file_id LIMIT "@;
    reveal_strlit(") ORDER BY c.file_id LIMIT ");
    reveal_strlit(" ORDER BY c.file_id LIMIT ");
    reveal_strlit(")");
    assert(big.subrange(0, 1) =~= ")"@);
    assert(big.subrange(1, 27) =~= " ORDER BY c.file_id LIMIT "@);
    assert(big.subrange(0, 27) =~= big.subrange(0, 1) + big.subrange(1, 27));
    assert(big.subrange(0, 27) =~= big);
}

proof fn lemma_split_branch_after()
    ensures
        " WHERE rf.ref_name=?1 AND rf.file_id>?2 ORDER BY rf.file_id LIMIT ?3"@ == " WHERE "@ + "rf.ref_name"@ + "="@ + "?1"@ + " AND "@ + "rf.file_id"@ + ">"@ + "?2"@ + " ORDER BY rf.file_id LIMIT "@ + "?3"@,
{
    let big = " WHERE rf.ref_name=?1 AND rf.file_id>?2 ORDER BY rf.file_id LIMIT ?3"@;
    reveal_strlit(" WHERE rf.ref_name=?1 AND rf.file_id>?2 ORDER BY rf.file_id LIMIT ?3");
    reveal_strlit(" AND ");
    reveal_strlit(" ORDER BY rf.file_id LIMIT ");
    reveal_strlit(" WHERE ");
    reveal_strlit("=");
    reveal_strlit(">");
    reveal_strlit("?1");
    reveal_strlit("?2");
    reveal_strlit("?3");
    reveal_strlit("rf.file_id");
    reveal_strlit("rf.ref_name");
    assert(big.subrange(0, 7) =~= " WHERE "@);
    assert(big.subrange(7, 18) =~= "rf.ref_name"@);
    assert(big.subrange(0, 18) =~= big.subrange(0, 7) + big.subrange(7, 18));
    assert(big.subrange(18, 19) =~= "="@);
    assert(big.subrange(0, 19) =~= big.subrange(0, 18) + big.subrange(18, 19));
    assert(big.subrange(19, 21) =~= "?1"@);
    assert(big.subrange(0, 21) =~= big.subrange(0, 19) + big.subrange(19, 21));
    assert(big.subrange(21, 26) =~= " AND "@);
    assert(big.subrange(0, 26) =~= big.subrange(0, 21) + big.subrange(21, 26));
    assert(big.subrange(26, 36) =~= "rf.file_id"@);
    assert(big.subrange(0, 36) =~= big.subrange(0, 26) + big.subrange(26, 36));
    assert(big.subrange(36, 37) =~= ">"@);
    assert(big.subrange(0, 37) =~= big.subrange(0, 36) + big.subrange(36, 37));
    assert(big.subrange(37, 39) =~= "?2"@);
    assert(big.subrange(0, 39) =~= big.subrange(0, 37) + big.subrange(37, 39));
    assert(big.subrange(39, 66) =~= " ORDER BY rf.file_id LIMIT "@);
    assert(big.subrange(0, 66) =~= big.subrange(0, 39) + big.subrange(39, 66));
    assert(big.subrange(66, 68) =~= "?3"@);
    assert(big.subrange(0, 68) =~= big.subrange(0, 66) + big.subrange(66, 68));
    assert(big.subrange(0, 68) =~= big);
}

proof fn lemma_split_branch()
    ensures
        " WHERE rf.ref_name=?1 ORDER BY rf.file_id LIMIT ?2"@ == " WHERE "@ + "rf.ref_name"@ + "="@ + "?1"@ + " ORDER BY rf.file_id LIMIT "@ + "?2"@,
{
    let big = " WHERE rf.ref_name=?1 ORDER BY rf.file_id LIMIT ?2"@;
    reveal_strlit(" WHERE rf.ref_name=?1 ORDER BY rf.file_id LIMIT ?2");
    reveal_strlit(" ORDER BY rf.file_id LIMIT ");
    reveal_strlit(" WHERE ");
    reveal_strlit("=");
    reveal_strlit("?1");
    reveal_strlit("?2");
    reveal_strlit("rf.ref_name");
    assert(big.subrange(0, 7) =~= " WHERE "@);
    assert(big.subrange(7, 18) =~= "rf.ref_name"@);
    assert(big.subrange(0, 18) =~= big.subrange(0, 7) + big.subrange(7, 18));
    assert(big.subrange(18, 19) =~= "="@);
    assert(big.subrange(0, 19) =~= big.subrange(0, 18) + big.subrange(18, 19));
    assert(big.subrange(19, 21) =~= "?1"@);
    assert(big.subrange(0, 21) =~= big.subrange(0, 19) + big.subrange(19, 21));
    assert(big.subrange(21, 48) =~= " ORDER BY rf.file_id LIMIT "@);
    assert(big.subrange(0, 48) =~= big.subrange(0, 21) + big.subrange(21, 48));
    assert(big.subrange(48, 50) =~= "?2"@);
    assert(big.subrange(0, 50) =~= big.subrange(0, 48) + big.subrange(48, 50));
    assert(big.subrange(0, 50) =~= big);
}

proof fn lemma_split_history()
    ensures
        " WHERE c.snapshot_id=?1 AND (?2 IS NULL OR c.file_id>?2) ORDER BY c.file_id LIMIT ?3"@ == " WHERE "@ + "c.snapshot_id"@ + "="@ + "?1"@ + " AND "@ + "("@ + "?2"@ + " IS NULL"@ + " OR "@ + "c.file_id"@ + ">"@ + "?2"@ + ")"@ + " ORDER BY c.file_id LIMIT "@ + "?3"@,
{
    let big = " WHERE c.snapshot_id=?1 AND (?2 IS NULL OR c.file_id>?2) ORDER BY c.file_id LIMIT ?3"@;
    reveal_strlit(" WHERE c.snapshot_id=?1 AND (?2 IS NULL OR c.file_id>?2) ORDER BY c.file_id LIMIT ?3");
    reveal_strlit(" AND ");
    reveal_strlit(" IS NULL");
    reveal_strlit(" OR ");
    reveal_strlit(" ORDER BY c.file_id LIMIT ");
    reveal_strlit(" WHERE ");
    reveal_strlit("(");
    reveal_strlit(")");
    reveal_strlit("=");
    reveal_strlit(">");
    reveal_strlit("?1");
    reveal_strlit("?2");
    reveal_strlit("?3");
    reveal_strlit("c.file_id");
    reveal_strlit("c.snapshot_id");
    assert(big.subrange(0, 7) =~= " WHERE "@);
    assert(big.subrange(7, 20) =~= "c.snapshot_id"@);
    assert(big.subrange(0, 20) =~= big.subrange(0, 7) + big.subrange(7, 20));
    assert(big.subrange(20, 21) =~= "="@);
    assert(big.subrange(0, 21) =~= big.subrange(0, 20) + big.subrange(20, 21));
    assert(big.subrange(21, 23) =~= "?1"@);
    assert(big.subrange(0, 23) =~= big.subrange(0, 21) + big.subrange(21, 23));
    assert(big.subrange(23, 28) =~= " AND "@);
    assert(big.subrange(0, 28) =~= big.subrange(0, 23) + big.subrange(23, 28));
    assert(big.subrange(28, 29) =~= "("@);
    assert(big.subrange(0, 29) =~= big.subrange(0, 28) + big.subrange(28, 29));
    assert(big.subrange(29, 31) =~= "?2"@);
    assert(big.subrange(0, 31) =~= big.subrange(0, 29) + big.subrange(29, 31));
    assert(big.subrange(31, 39) =~= " IS NULL"@);
    assert(big.subrange(0, 39) =~= big.subrange(0, 31) + big.subrange(31, 39));
    assert(big.subrange(39, 43) =~= " OR "@);
    assert(big.subrange(0, 43) =~= big.subrange(0, 39) + big.subrange(39, 43));
    assert(big.subrange(43, 52) =~= "c.file_id"@);
    assert(big.subrange(0, 52) =~= big.subrange(0, 43) + big.subrange(43, 52));
    assert(big.subrange(52, 53) =~= ">"@);
    assert(big.subrange(0, 53) =~= big.subrange(0, 52) + big.subrange(52, 53));
    assert(big.subrange(53, 55) =~= "?2"@);
    assert(big.subrange(0, 55) =~= big.subrange(0, 53) + big.subrange(53, 55));
    assert(big.subrange(55, 56) =~= ")"@);
    assert(big.subrange(0, 56) =~= big.subrange(0, 55) + big.subrange(55, 56));
    assert(big.subrange(56, 82) =~= " ORDER BY c.file_id LIMIT "@);
    assert(big.subrange(0, 82) =~= big.subrange(0, 56) + big.subrange(56, 82));
    assert(big.subrange(82, 84) =~= "?3"@);
    assert(big.subrange(0, 84) =~= big.subrange(0, 82) + big.subrange(82, 84));
    assert(big.subrange(0, 84) =~= big);
}
proof fn lemma_table_text(count: nat)
    ensures
        range_table(count) == range_table_text(count),
{
    lemma_split_table();
    lemma_range_rows(count);
}

#[verifier::spinoff_prover]
#[verifier::rlimit(60)]
proof fn lemma_branch_parts(
    start: Seq<char>,
    p: Seq<char>,
    q: Seq<char>,
    kept: Seq<char>,
    order: Seq<char>,
    limit: Seq<char>,
)
    ensures
        start + " WHERE rf.ref_name="@ + p + Seq::<char>::empty() + " AND "@ + kept + order + limit
            == start + " WHERE "@ + ("rf.ref_name"@ + "="@ + p + " AND "@ + kept) + order + limit,
        start + " WHERE rf.ref_name="@ + p + (" AND rf.file_id>"@ + q) + " AND "@ + kept + order
            + limit == start + " WHERE "@ + ("rf.ref_name"@ + "="@ + p + " AND "@ + ("rf.file_id"@
            + ">"@ + q) + " AND "@ + kept) + order + limit,
{
    lemma_split_name();
    lemma_split_after();
    let w = start + " WHERE "@;
    let a = "rf.ref_name"@ + "="@ + p;
    let b = "rf.file_id"@ + ">"@ + q;
    let named = start + " WHERE rf.ref_name="@ + p;
    assert(named =~= w + a);
    assert(named + Seq::<char>::empty() =~= named);
    assert(named + " AND "@ + kept =~= w + (a + " AND "@ + kept));
    let later = named + (" AND rf.file_id>"@ + q);
    assert(" AND rf.file_id>"@ + q =~= " AND "@ + b);
    assert(later =~= w + (a + " AND "@ + b));
    assert(later + " AND "@ + kept =~= w + (a + " AND "@ + b + " AND "@ + kept));
}

/// The query that lists a branch by ranges asks for the files of the branch, from
/// the start or behind a file, that no range rules out, in the order of their
/// identifiers.
#[verifier::spinoff_prover]
pub proof fn lemma_ranged_branch_query(count: usize, after: bool, sql: String)
    requires
        call_ensures(ranged_branch_sql, (count, after), sql),
        count <= 4096,
    ensures
        sql@ == range_table_text(count as nat) + " "@ + branch_source() + " WHERE "@ + rendered(
            branch_test(count as nat, after),
        ) + " ORDER BY rf.file_id LIMIT "@ + ("?"@ + decimal(
            if after {
                6 * count as nat + 3
            } else {
                6 * count as nat + 2
            },
        )),
        grouped(branch_test(count as nat, after)),
{
    let n = count as nat;
    lemma_table_text(n);
    lemma_rejection_text();
    let name = Test::Same(column(Column::LiveRef), Operand::Parameter(6 * n + 1));
    let later = Test::More(column(Column::LiveFile), Operand::Parameter(6 * n + 2));
    let kept = Test::NoMetric(Box::new(rules_out()));
    lemma_branch_parts(
        range_table_text(n) + " "@ + branch_source(),
        parameter(n * 6 + 1),
        parameter(n * 6 + 2),
        range_rejection(),
        " ORDER BY rf.file_id LIMIT "@,
        parameter(
            if after {
                n * 6 + 3
            } else {
                n * 6 + 2
            },
        ),
    );
    assert(rendered(name) == "rf.ref_name"@ + "="@ + parameter(n * 6 + 1));
    assert(rendered(later) == "rf.file_id"@ + ">"@ + parameter(n * 6 + 2));
    assert(grouped(name) && grouped(later));
    if after {
        let first = Test::Both(Box::new(name), Box::new(later));
        assert(rendered(first) == rendered(name) + " AND "@ + rendered(later));
        assert(rendered(branch_test(n, after)) == rendered(first) + " AND "@ + range_rejection());
        assert(grouped(first));
    } else {
        assert(rendered(branch_test(n, after)) == rendered(name) + " AND "@ + range_rejection());
    }
}

/// A listing of a branch by ranges loses no file that may match. With the parameters
/// of the ranges, the name and, for a later batch, the last file, its condition
/// keeps a file of the branch exactly if it comes later and no range rules it out:
/// a file is left out for a range only if no value between its stored bounds meets
/// that range.
pub proof fn lemma_ranged_branch_loses_no_file(
    ranges: Vec<CanonicalRange>,
    params: Vec<Cell>,
    name: Seq<char>,
    last: Seq<u8>,
    after: bool,
    metrics: Seq<StoredMetric>,
    file: Seq<u8>,
    scope: Scope,
    tables: Tables,
)
    requires
        call_ensures(range_params, (&ranges,), params),
        ({
            let rest = if after {
                seq![CellView::Text(name), CellView::Blob(last)]
            } else {
                seq![CellView::Text(name)]
            };
            &&& scope.parameters.len() > cells_view(params@).len() + rest.len()
            &&& scope.parameters.take((cells_view(params@).len() + rest.len()) as int)
                == cells_view(params@) + rest
        }),
        scope.file == CellView::Blob(file),
        scope.live_file == CellView::Blob(file),
        scope.live_ref is Text,
        tables.ranges == range_table_rows(scope.parameters, ranges@.len()),
        tables.metrics == metric_rows(metrics),
    ensures
        params@.len() == 6 * ranges@.len(),
        holds(branch_test(ranges@.len(), after), scope, tables) == Some(true) <==> {
            &&& scope.live_ref == CellView::Text(name)
            &&& after ==> be_value(last) < be_value(file)
            &&& may_match(ranges@, metrics, file)
        },
{
    let n = ranges@.len();
    let own = cells_view(params@);
    let rest = if after {
        seq![CellView::Text(name), CellView::Blob(last)]
    } else {
        seq![CellView::Text(name)]
    };
    let head = scope.parameters.take((own.len() + rest.len()) as int);
    assert(own.len() == 6 * n);
    assert(scope.parameters.take((6 * n) as int) =~= head.take((6 * n) as int));
    assert((own + rest).take((6 * n) as int) =~= own);
    lemma_rejection_meaning(ranges@, metrics, file, scope, tables);
    assert(scope.parameters[(6 * n) as int] == head[(6 * n) as int]);
    assert((own + rest)[(6 * n) as int] == CellView::Text(name));
    if after {
        assert(scope.parameters[(6 * n + 1) as int] == head[(6 * n + 1) as int]);
        assert((own + rest)[(6 * n + 1) as int] == CellView::Blob(last));
    }
    let kept = Test::NoMetric(Box::new(rules_out()));
    let by_name = Test::Same(column(Column::LiveRef), Operand::Parameter(6 * n + 1));
    let later = Test::More(column(Column::LiveFile), Operand::Parameter(6 * n + 2));
    assert(holds(by_name, scope, tables) == Some(scope.live_ref == CellView::Text(name)));
    if after {
        assert(holds(later, scope, tables) == Some(be_value(last) < be_value(file)));
        let first = Test::Both(Box::new(by_name), Box::new(later));
        assert(holds(first, scope, tables) == both(
            holds(by_name, scope, tables),
            holds(later, scope, tables),
        ));
        assert(holds(branch_test(n, after), scope, tables) == both(
            holds(first, scope, tables),
            holds(kept, scope, tables),
        ));
    } else {
        assert(holds(branch_test(n, after), scope, tables) == both(
            holds(by_name, scope, tables),
            holds(kept, scope, tables),
        ));
    }
}

/// The query that lists the changes of a snapshot by ranges asks for those of the
/// snapshot, from the start or behind a file, without the additions that a range
/// rules out, in the order of their files.
pub proof fn lemma_ranged_history_query(count: usize, sql: String)
    requires
        call_ensures(ranged_historical_sql, (count,), sql),
        count <= 4096,
    ensures
        sql@ == range_table_text(count as nat) + " "@ + history_source() + " WHERE "@ + rendered(
            history_test(count as nat),
        ) + " ORDER BY c.file_id LIMIT "@ + ("?"@ + decimal(6 * count as nat + 3)),
        grouped(history_test(count as nat)),
{
    let n = count as nat;
    lemma_table_text(n);
    lemma_rejection_text();
    lemma_split_changed_in();
    lemma_split_open();
    lemma_split_changed_file();
    lemma_split_kind();
    lemma_split_order();
    lemma_changed_after_text(6 * n + 1);
    let kept = Test::NoMetric(Box::new(rules_out()));
    let other = Test::Differs(column(Column::ChangeKind), Operand::Addition);
    let either = Test::Either(Box::new(other), Box::new(kept));
    assert(rendered(other) == "c.change_kind"@ + "<>"@ + "'add'"@);
    assert(rendered(either) == rendered(other) + " OR "@ + range_rejection());
    assert(rendered(Test::Brackets(Box::new(either))) == "("@ + rendered(either) + ")"@);
    assert(rendered(history_test(n)) == rendered(changed_after(6 * n + 1)) + " AND "@ + ("("@
        + rendered(either) + ")"@));
    assert(grouped(other));
    assert(grouped(either));
    assert(grouped(Test::Brackets(Box::new(either))));
    let start = range_table_text(n) + " "@ + history_source();
    let p = parameter(6 * n + 1);
    let q = parameter(6 * n + 2);
    lemma_history_parts(start, p, q, range_rejection(), parameter(6 * n + 3));
}

#[verifier::spinoff_prover]
#[verifier::rlimit(60)]
proof fn lemma_history_parts(
    start: Seq<char>,
    p: Seq<char>,
    q: Seq<char>,
    kept: Seq<char>,
    limit: Seq<char>,
)
    ensures
        start + " WHERE c.snapshot_id="@ + p + " AND ("@ + q + " IS NULL OR c.file_id>"@ + q
            + ") AND (c.change_kind<>'add' OR "@ + kept + ") ORDER BY c.file_id LIMIT "@ + limit
            == start + " WHERE "@ + ("c.snapshot_id"@ + "="@ + p + " AND "@ + ("("@ + (q
            + " IS NULL"@ + " OR "@ + ("c.file_id"@ + ">"@ + q)) + ")"@) + " AND "@ + ("("@ + (
        "c.change_kind"@ + "<>"@ + "'add'"@ + " OR "@ + kept) + ")"@))
            + " ORDER BY c.file_id LIMIT "@ + limit,
{
    lemma_split_changed_in();
    lemma_split_open();
    lemma_split_changed_file();
    lemma_split_kind();
    lemma_split_order();
    let a = "c.snapshot_id"@ + "="@ + p;
    let b = "("@ + (q + " IS NULL"@ + " OR "@ + ("c.file_id"@ + ">"@ + q)) + ")"@;
    let c = "("@ + ("c.change_kind"@ + "<>"@ + "'add'"@ + " OR "@ + kept) + ")"@;
    let s1 = start + " WHERE c.snapshot_id="@ + p;
    assert(s1 =~= start + " WHERE "@ + a);
    let s2 = s1 + " AND ("@ + q + " IS NULL OR c.file_id>"@ + q;
    let unclosed = "("@ + (q + " IS NULL"@ + " OR "@ + ("c.file_id"@ + ">"@ + q));
    assert(b == unclosed + ")"@);
    assert(s2 =~= s1 + " AND "@ + unclosed) by {
        let t = s1 + " AND "@;
        assert(s1 + " AND ("@ =~= t + "("@);
        let u = q + " IS NULL"@ + " OR "@ + ("c.file_id"@ + ">"@ + q);
        assert(q + " IS NULL OR c.file_id>"@ + q =~= u);
        assert(s2 =~= (s1 + " AND ("@) + (q + " IS NULL OR c.file_id>"@ + q));
        assert(t + unclosed =~= (t + "("@) + u);
    }
    let s3 = s2 + ") AND (c.change_kind<>'add' OR "@;
    let d = "c.change_kind"@ + "<>"@ + "'add'"@ + " OR "@;
    let closed = s1 + " AND "@ + b;
    assert(s2 + ")"@ =~= closed);
    assert(s3 =~= (s2 + ")"@) + " AND "@ + ("("@ + d)) by {
        assert(") AND (c.change_kind<>'add' OR "@ =~= ")"@ + " AND "@ + ("("@ + d));
    }
    assert(s3 + kept + ")"@ =~= closed + " AND "@ + c) by {
        assert(c =~= ("("@ + d) + kept + ")"@);
    }
    let whole = s3 + kept;
    assert(whole + ") ORDER BY c.file_id LIMIT "@ =~= (whole + ")"@) + " ORDER BY c.file_id LIMIT "@);
    let test = a + " AND "@ + b + " AND "@ + c;
    assert(closed + " AND "@ + c =~= start + " WHERE "@ + test) by {
        let w = start + " WHERE "@;
        assert(closed == w + a + " AND "@ + b);
        assert(closed =~= w + (a + " AND "@ + b));
    }
}

proof fn lemma_changed_after_text(n: nat)
    ensures
        rendered(changed_after(n)) == "c.snapshot_id"@ + "="@ + ("?"@ + decimal(n)) + " AND "@ + (
        "("@ + (("?"@ + decimal(n + 1)) + " IS NULL"@ + " OR "@ + ("c.file_id"@ + ">"@ + ("?"@
            + decimal(n + 1)))) + ")"@),
        grouped(changed_after(n)),
{
    let none = Test::IsNull(Operand::Parameter(n + 1));
    let later = Test::More(column(Column::ChangedFile), Operand::Parameter(n + 1));
    let own = Test::Same(column(Column::ChangedIn), Operand::Parameter(n));
    let either = Test::Either(Box::new(none), Box::new(later));
    assert(rendered(none) == ("?"@ + decimal(n + 1)) + " IS NULL"@);
    assert(rendered(later) == "c.file_id"@ + ">"@ + ("?"@ + decimal(n + 1)));
    assert(rendered(own) == "c.snapshot_id"@ + "="@ + ("?"@ + decimal(n)));
    assert(rendered(either) == rendered(none) + " OR "@ + rendered(later));
    assert(rendered(Test::Brackets(Box::new(either))) == "("@ + rendered(either) + ")"@);
    assert(rendered(changed_after(n)) == rendered(own) + " AND "@ + rendered(
        Test::Brackets(Box::new(either)),
    ));
    assert(grouped(none) && grouped(later) && grouped(own));
    assert(grouped(either));
    assert(grouped(Test::Brackets(Box::new(either))));
}

/// A listing of the changes of a snapshot by ranges loses no addition that may
/// match, and no change that is not an addition.
pub proof fn lemma_ranged_history_loses_no_file(
    ranges: Vec<CanonicalRange>,
    params: Vec<Cell>,
    snapshot: Seq<u8>,
    last: Option<Seq<u8>>,
    metrics: Seq<StoredMetric>,
    file: Seq<u8>,
    scope: Scope,
    tables: Tables,
)
    requires
        call_ensures(range_params, (&ranges,), params),
        ({
            let rest = seq![
                CellView::Blob(snapshot),
                match last {
                    None => CellView::Null,
                    Some(id) => CellView::Blob(id),
                },
            ];
            &&& scope.parameters.len() > cells_view(params@).len() + 2
            &&& scope.parameters.take((cells_view(params@).len() + 2) as int) == cells_view(params@)
                + rest
        }),
        scope.file == CellView::Blob(file),
        scope.changed_file == CellView::Blob(file),
        scope.changed_in is Blob,
        scope.change_kind is Text,
        tables.ranges == range_table_rows(scope.parameters, ranges@.len()),
        tables.metrics == metric_rows(metrics),
    ensures
        holds(history_test(ranges@.len()), scope, tables) == Some(true) <==> {
            &&& scope.changed_in == CellView::Blob(snapshot)
            &&& last matches Some(id) ==> be_value(id) < be_value(file)
            &&& scope.change_kind == CellView::Text("add"@) ==> may_match(ranges@, metrics, file)
        },
{
    let n = ranges@.len();
    let own = cells_view(params@);
    let rest = seq![
        CellView::Blob(snapshot),
        match last {
            None => CellView::Null,
            Some(id) => CellView::Blob(id),
        },
    ];
    let head = scope.parameters.take((own.len() + 2) as int);
    assert(own.len() == 6 * n);
    assert(scope.parameters.take((6 * n) as int) =~= head.take((6 * n) as int));
    assert((own + rest).take((6 * n) as int) =~= own);
    lemma_rejection_meaning(ranges@, metrics, file, scope, tables);
    assert(scope.parameters[(6 * n) as int] == head[(6 * n) as int]);
    assert((own + rest)[(6 * n) as int] == rest[0]);
    assert(scope.parameters[(6 * n + 1) as int] == head[(6 * n + 1) as int]);
    assert((own + rest)[(6 * n + 1) as int] == rest[1]);
    let kept = Test::NoMetric(Box::new(rules_out()));
    let other = Test::Differs(column(Column::ChangeKind), Operand::Addition);
    let either = Test::Either(Box::new(other), Box::new(kept));
    assert(holds(other, scope, tables) == Some(scope.change_kind != CellView::Text("add"@)));
    assert(holds(either, scope, tables) == Some(
        scope.change_kind != CellView::Text("add"@) || may_match(ranges@, metrics, file),
    ));
    assert(holds(Test::Brackets(Box::new(either)), scope, tables) == holds(either, scope, tables));
    lemma_changed_after(snapshot, last, file, 6 * n + 1, scope, tables);
    assert(holds(history_test(n), scope, tables) == both(
        holds(changed_after(6 * n + 1), scope, tables),
        holds(either, scope, tables),
    ));
}

proof fn lemma_changed_after(
    snapshot: Seq<u8>,
    last: Option<Seq<u8>>,
    file: Seq<u8>,
    n: nat,
    scope: Scope,
    tables: Tables,
)
    requires
        n > 0,
        scope.changed_file == CellView::Blob(file),
        scope.changed_in is Blob,
        scope.parameters[n - 1] == CellView::Blob(snapshot),
        scope.parameters[n as int] == (match last {
            None => CellView::Null,
            Some(id) => CellView::Blob(id),
        }),
    ensures
        holds(changed_after(n), scope, tables) == Some(
            scope.changed_in == CellView::Blob(snapshot) && (last matches Some(id) ==> be_value(id)
                < be_value(file)),
        ),
{
    let none = Test::IsNull(Operand::Parameter(n + 1));
    let later = Test::More(column(Column::ChangedFile), Operand::Parameter(n + 1));
    let own = Test::Same(column(Column::ChangedIn), Operand::Parameter(n));
    let either = Test::Either(Box::new(none), Box::new(later));
    assert(holds(none, scope, tables) == Some(last is None));
    assert(holds(own, scope, tables) == Some(scope.changed_in == CellView::Blob(snapshot)));
    if let Some(id) = last {
        assert(holds(later, scope, tables) == Some(be_value(id) < be_value(file)));
    }
    assert(holds(either, scope, tables) == Some(
        last matches Some(id) ==> be_value(id) < be_value(file),
    ));
    assert(holds(Test::Brackets(Box::new(either)), scope, tables) == holds(either, scope, tables));
    assert(holds(changed_after(n), scope, tables) == both(
        holds(own, scope, tables),
        holds(Test::Brackets(Box::new(either)), scope, tables),
    ));
}

/// The condition of a listing of a branch without ranges.
pub open spec fn plain_branch_test(after: bool) -> Test {
    let name = Test::Same(column(Column::LiveRef), Operand::Parameter(1));
    if after {
        Test::Both(
            Box::new(name),
            Box::new(Test::More(column(Column::LiveFile), Operand::Parameter(2))),
        )
    } else {
        name
    }
}

/// A listing of a branch without ranges asks for the files of the branch, from the
/// start or behind a file, in the order of their identifiers, and leaves out no
/// other.
pub proof fn lemma_branch_query(
    after: bool,
    sql: String,
    name: Seq<char>,
    last: Seq<u8>,
    file: Seq<u8>,
    scope: Scope,
    tables: Tables,
)
    requires
        call_ensures(branch_sql, (after,), sql),
        scope.live_file == CellView::Blob(file),
        scope.live_ref is Text,
        scope.parameters[0] == CellView::Text(name),
        after ==> scope.parameters[1] == CellView::Blob(last),
    ensures
        sql@ == branch_source() + " WHERE "@ + rendered(plain_branch_test(after))
            + " ORDER BY rf.file_id LIMIT "@ + ("?"@ + decimal(
            if after {
                3
            } else {
                2
            },
        )),
        holds(plain_branch_test(after), scope, tables) == Some(
            scope.live_ref == CellView::Text(name) && (after ==> be_value(last) < be_value(file)),
        ),
{
    lemma_split_branch_after();
    lemma_split_branch();
    lemma_small_numbers();
    let own = Test::Same(column(Column::LiveRef), Operand::Parameter(1));
    let later = Test::More(column(Column::LiveFile), Operand::Parameter(2));
    assert(rendered(own) =~= "rf.ref_name"@ + "="@ + "?1"@);
    assert(rendered(later) =~= "rf.file_id"@ + ">"@ + "?2"@);
    assert(holds(own, scope, tables) == Some(scope.live_ref == CellView::Text(name)));
    if after {
        assert(rendered(plain_branch_test(after)) == rendered(own) + " AND "@ + rendered(later));
        assert(holds(later, scope, tables) == Some(be_value(last) < be_value(file)));
        assert(sql@ =~= branch_source() + " WHERE "@ + rendered(plain_branch_test(after))
            + " ORDER BY rf.file_id LIMIT "@ + ("?"@ + decimal(3)));
    } else {
        assert(sql@ =~= branch_source() + " WHERE "@ + rendered(plain_branch_test(after))
            + " ORDER BY rf.file_id LIMIT "@ + ("?"@ + decimal(2)));
    }
}

proof fn lemma_small_numbers()
    ensures
        "?"@ + decimal(1) == "?1"@,
        "?"@ + decimal(2) == "?2"@,
        "?"@ + decimal(3) == "?3"@,
{
    reveal_strlit("?");
    reveal_strlit("?1");
    reveal_strlit("?2");
    reveal_strlit("?3");
    reveal_with_fuel(decimal, 2);
    assert("?"@ + decimal(1) =~= "?1"@);
    assert("?"@ + decimal(2) =~= "?2"@);
    assert("?"@ + decimal(3) =~= "?3"@);
}

/// A listing of the changes of a snapshot asks for those of the snapshot, from the
/// start or behind a file, in the order of their files, and leaves out no other.
pub proof fn lemma_history_query(
    sql: String,
    snapshot: Seq<u8>,
    last: Option<Seq<u8>>,
    file: Seq<u8>,
    scope: Scope,
    tables: Tables,
)
    requires
        call_ensures(historical_sql, (), sql),
        scope.changed_file == CellView::Blob(file),
        scope.changed_in is Blob,
        scope.parameters[0] == CellView::Blob(snapshot),
        scope.parameters[1] == (match last {
            None => CellView::Null,
            Some(id) => CellView::Blob(id),
        }),
    ensures
        sql@ == history_source() + " WHERE "@ + rendered(changed_after(1))
            + " ORDER BY c.file_id LIMIT "@ + ("?"@ + decimal(3)),
        grouped(changed_after(1)),
        holds(changed_after(1), scope, tables) == Some(
            scope.changed_in == CellView::Blob(snapshot) && (last matches Some(id) ==> be_value(id)
                < be_value(file)),
        ),
{
    lemma_split_history();
    lemma_small_numbers();
    lemma_changed_after_text(1);
    lemma_changed_after(snapshot, last, file, 1, scope, tables);
    assert(sql@ =~= history_source() + " WHERE "@ + rendered(changed_after(1))
        + " ORDER BY c.file_id LIMIT "@ + ("?"@ + decimal(3)));
}

} // verus!

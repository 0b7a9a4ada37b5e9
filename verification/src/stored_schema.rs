//! A schema that was stored row by row passes the check of its rows, and the
//! image of a new table is valid.
use crate::genesis::{
    below, field_rows_view, genesis_rows, last_row, stored_fields, FieldRowView, GenesisImage,
};
use crate::image::{
    belongs, contiguous, descriptors_check, features_match, history_check, history_holds,
    image_check, intents_of, is_main, last_commits, listed, membership_agrees, paired, ref_check,
    ref_in_shape, refs_check, required_features, schema_check, schemas_check, ExpectedImage,
    Membership,
};
use crate::schema::{all_field_ids, field_ids, field_view, fields_view, FieldView, Schema};
use crate::schema_rows::{
    child_at, child_count, children_of, has_row, ordinals_contiguous, rows_check, tree_check,
    trees_check,
};
use crate::tables::{FieldRow, ImageRows};
use crate::text::texts_view;
use vstd::prelude::*;

verus! {

/// The rows under a parent, in their order.
pub open spec fn rows_under(rows: Seq<FieldRowView>, parent: Option<u32>) -> Seq<FieldRowView>
    decreases rows.len(),
{
    if rows.len() == 0 {
        Seq::empty()
    } else {
        let before = rows_under(rows.drop_last(), parent);
        if rows.last().parent == parent {
            before.push(rows.last())
        } else {
            before
        }
    }
}

/// Whether no field, at any depth, is a mapping.
pub open spec fn without_mappings(fields: Seq<FieldView>) -> bool
    decreases fields,
{
    fields.len() == 0 || (without_mappings(fields.drop_last()) && !(fields.last().kind is Mapping)
        && no_mapping_below(fields.last()))
}

pub open spec fn no_mapping_below(field: FieldView) -> bool
    decreases field,
{
    without_mappings(field.children)
}

/// The rows of fields alone, without those below them.
pub open spec fn level(fields: Seq<FieldView>, parent: Option<u32>) -> Seq<FieldRowView> {
    Seq::new(
        fields.len(),
        |i: int| FieldRowView { parent, ordinal: i as nat, field: fields[i] },
    )
}

pub open spec fn names_none_of(parent: Option<u32>, ids: Seq<u32>) -> bool {
    parent matches Some(id) ==> !ids.contains(id)
}

proof fn lemma_under_join(a: Seq<FieldRowView>, b: Seq<FieldRowView>, parent: Option<u32>)
    ensures
        rows_under(a + b, parent) == rows_under(a, parent) + rows_under(b, parent),
    decreases b.len(),
{
    if b.len() == 0 {
        assert(a + b =~= a);
        assert(rows_under(a, parent) + rows_under(b, parent) =~= rows_under(a, parent));
    } else {
        assert((a + b).drop_last() =~= a + b.drop_last());
        lemma_under_join(a, b.drop_last(), parent);
        if b.last().parent == parent {
            assert((rows_under(a, parent) + rows_under(b.drop_last(), parent)).push(b.last())
                =~= rows_under(a, parent) + rows_under(b, parent));
        }
    }
}

proof fn lemma_contains_join(a: Seq<u32>, b: Seq<u32>, x: u32)
    ensures
        (a + b).contains(x) <==> a.contains(x) || b.contains(x),
{
    if a.contains(x) {
        let k = choose|k: int| 0 <= k < a.len() && a[k] == x;
        assert((a + b)[k] == x);
    }
    if b.contains(x) {
        let k = choose|k: int| 0 <= k < b.len() && b[k] == x;
        assert((a + b)[a.len() + k] == x);
    }
    if (a + b).contains(x) {
        let k = choose|k: int| 0 <= k < (a + b).len() && (a + b)[k] == x;
        if k < a.len() {
            assert(a[k] == x);
        } else {
            assert(b[k - a.len()] == x);
        }
    }
}

/// The identifiers of fields are those of all but the last, that of the last,
/// and those below it.
proof fn lemma_ids(fields: Seq<FieldView>, x: u32)
    requires
        fields.len() > 0,
    ensures
        all_field_ids(fields).contains(x) <==> all_field_ids(fields.drop_last()).contains(x) || x
            == fields.last().field_id || all_field_ids(fields.last().children).contains(x),
{
    let last = fields.last();
    reveal_with_fuel(field_ids, 2);
    lemma_contains_join(all_field_ids(fields.drop_last()), field_ids(last), x);
    lemma_contains_join(seq![last.field_id], all_field_ids(last.children), x);
    assert(seq![last.field_id][0] == last.field_id);
}

/// Parts of a list without repeats have no repeats and nothing in common.
proof fn lemma_apart(a: Seq<u32>, b: Seq<u32>)
    requires
        (a + b).no_duplicates(),
    ensures
        a.no_duplicates(),
        b.no_duplicates(),
        forall|x: u32| #[trigger] a.contains(x) ==> !b.contains(x),
{
    let all = a + b;
    assert forall|i: int, j: int| 0 <= i < a.len() && 0 <= j < a.len() && i != j implies a[i]
        != a[j] by {
        assert(all[i] != all[j]);
    }
    assert forall|i: int, j: int| 0 <= i < b.len() && 0 <= j < b.len() && i != j implies b[i]
        != b[j] by {
        assert(all[a.len() + i] != all[a.len() + j]);
    }
    assert forall|x: u32| #[trigger] a.contains(x) implies !b.contains(x) by {
        if b.contains(x) {
            let i = choose|i: int| 0 <= i < a.len() && a[i] == x;
            let j = choose|j: int| 0 <= j < b.len() && b[j] == x;
            assert(all[i] != all[a.len() + j]);
        }
    }
}

/// What it means for the last field that no identifier repeats.
spec fn last_apart(fields: Seq<FieldView>) -> bool {
    let front = all_field_ids(fields.drop_last());
    let last = fields.last();
    let inner = all_field_ids(last.children);
    &&& front.no_duplicates()
    &&& inner.no_duplicates()
    &&& !front.contains(last.field_id)
    &&& !inner.contains(last.field_id)
    &&& forall|x: u32| #[trigger] front.contains(x) ==> !inner.contains(x)
}

proof fn lemma_last_apart(fields: Seq<FieldView>)
    requires
        fields.len() > 0,
        all_field_ids(fields).no_duplicates(),
    ensures
        last_apart(fields),
{
    let front = all_field_ids(fields.drop_last());
    let last = fields.last();
    let inner = all_field_ids(last.children);
    reveal_with_fuel(field_ids, 2);
    lemma_apart(front, field_ids(last));
    lemma_apart(seq![last.field_id], inner);
    assert(seq![last.field_id][0] == last.field_id);
    assert(seq![last.field_id].contains(last.field_id));
    lemma_contains_join(seq![last.field_id], inner, last.field_id);
    assert forall|x: u32| #[trigger] front.contains(x) implies !inner.contains(x) by {
        lemma_contains_join(seq![last.field_id], inner, x);
    }
}

/// No row stands under a parent that is neither that of the fields nor one of
/// them.
proof fn lemma_none_under(
    fields: Seq<FieldView>,
    parent: Option<u32>,
    ordered: bool,
    other: Option<u32>,
)
    requires
        other != parent,
        names_none_of(other, all_field_ids(fields)),
    ensures
        rows_under(stored_fields(fields, parent, ordered), other) == Seq::<FieldRowView>::empty(),
    decreases fields,
{
    if fields.len() > 0 {
        let last = fields.last();
        let front = fields.drop_last();
        if let Some(id) = other {
            lemma_ids(fields, id);
        }
        lemma_none_under(front, parent, ordered, other);
        lemma_none_under_field(last, other);
        let row = last_row(fields, parent, ordered);
        let head = stored_fields(front, parent, ordered).push(row);
        assert(head.drop_last() =~= stored_fields(front, parent, ordered));
        lemma_under_join(head, below(last), other);
        assert(rows_under(head, other) + rows_under(below(last), other)
            =~= Seq::<FieldRowView>::empty());
    }
}

proof fn lemma_none_under_field(field: FieldView, other: Option<u32>)
    requires
        other != Some(field.field_id),
        names_none_of(other, all_field_ids(field.children)),
    ensures
        rows_under(below(field), other) == Seq::<FieldRowView>::empty(),
    decreases field,
{
    reveal_with_fuel(below, 2);
    let ordered = !(field.kind is Mapping);
    lemma_none_under(field.children, Some(field.field_id), ordered, other);
}

/// The rows under the parent of the fields are the fields.
proof fn lemma_level_under(fields: Seq<FieldView>, parent: Option<u32>)
    requires
        names_none_of(parent, all_field_ids(fields)),
    ensures
        rows_under(stored_fields(fields, parent, true), parent) == level(fields, parent),
    decreases fields.len(),
{
    if fields.len() == 0 {
        assert(level(fields, parent) =~= Seq::<FieldRowView>::empty());
    } else {
        let last = fields.last();
        let front = fields.drop_last();
        if let Some(id) = parent {
            lemma_ids(fields, id);
        }
        lemma_level_under(front, parent);
        lemma_none_under_field(last, parent);
        let row = last_row(fields, parent, true);
        let head = stored_fields(front, parent, true).push(row);
        assert(head.drop_last() =~= stored_fields(front, parent, true));
        lemma_under_join(head, below(last), parent);
        assert(rows_under(head, parent) + rows_under(below(last), parent) =~= level(
            fields,
            parent,
        ));
    }
}

// ------------------------------------------------------- the rows as they stand

proof fn lemma_count(rows: Seq<FieldRow>, parent: Option<u32>)
    ensures
        child_count(rows, parent) == rows_under(field_rows_view(rows), parent).len(),
    decreases rows.len(),
{
    if rows.len() > 0 {
        assert(field_rows_view(rows).drop_last() =~= field_rows_view(rows.drop_last()));
        lemma_count(rows.drop_last(), parent);
    }
}

proof fn lemma_under_member(rows: Seq<FieldRowView>, parent: Option<u32>)
    ensures
        forall|i: int|
            0 <= i < rows.len() && (#[trigger] rows[i]).parent == parent ==> rows_under(
                rows,
                parent,
            ).contains(rows[i]),
        forall|k: int|
            0 <= k < rows_under(rows, parent).len() ==> rows.contains(
                #[trigger] rows_under(rows, parent)[k],
            ),
    decreases rows.len(),
{
    if rows.len() > 0 {
        let front = rows.drop_last();
        lemma_under_member(front, parent);
        let under = rows_under(rows, parent);
        let inner = rows_under(front, parent);
        assert forall|i: int|
            0 <= i < rows.len() && (#[trigger] rows[i]).parent == parent implies under.contains(
            rows[i],
        ) by {
            if i < front.len() {
                assert(front[i] == rows[i]);
                let k = choose|k: int| 0 <= k < inner.len() && inner[k] == rows[i];
                assert(under[k] == rows[i]);
            } else {
                assert(under[under.len() - 1] == rows[i]);
            }
        }
        assert forall|k: int| 0 <= k < under.len() implies rows.contains(#[trigger] under[k]) by {
            if k < inner.len() {
                assert(under[k] == inner[k]);
                let i = choose|i: int| 0 <= i < front.len() && front[i] == inner[k];
                assert(rows[i] == under[k]);
            } else {
                assert(rows[rows.len() - 1] == under[k]);
            }
        }
    }
}

proof fn lemma_child_found(rows: Seq<FieldRow>, parent: Option<u32>, ordinal: int)
    ensures
        match child_at(rows, parent, ordinal) {
            Some(field) => exists|i: int|
                0 <= i < rows.len() && (#[trigger] rows[i]).parent == parent && rows[i].ordinal
                    == ordinal && rows[i].field == field,
            None => forall|i: int|
                0 <= i < rows.len() ==> !((#[trigger] rows[i]).parent == parent
                    && rows[i].ordinal == ordinal),
        },
    decreases rows.len(),
{
    if rows.len() > 0 {
        let rest = rows.skip(1);
        lemma_child_found(rest, parent, ordinal);
        if !(rows[0].parent == parent && rows[0].ordinal == ordinal) {
            if let Some(field) = child_at(rest, parent, ordinal) {
                let k = choose|k: int|
                    0 <= k < rest.len() && (#[trigger] rest[k]).parent == parent && rest[k].ordinal
                        == ordinal && rest[k].field == field;
                assert(rows[k + 1] == rest[k]);
            } else {
                assert forall|i: int| 0 <= i < rows.len() implies !((
                #[trigger] rows[i]).parent == parent && rows[i].ordinal == ordinal) by {
                    if i > 0 {
                        assert(rest[i - 1] == rows[i]);
                    }
                }
            }
        } else {
            assert(rows[0].field == child_at(rows, parent, ordinal)->0);
        }
    }
}

/// Rows under a parent that are a level of fields give those fields back.
proof fn lemma_children(rows: Seq<FieldRow>, parent: Option<u32>, fields: Seq<FieldView>)
    requires
        rows_under(field_rows_view(rows), parent) == level(fields, parent),
    ensures
        ordinals_contiguous(rows, parent),
        children_of(rows, parent) == fields,
{
    let shown = field_rows_view(rows);
    let under = level(fields, parent);
    lemma_count(rows, parent);
    lemma_under_member(shown, parent);
    assert forall|k: int| 0 <= k < fields.len() implies (#[trigger] child_at(
        rows,
        parent,
        k,
    ) is Some && field_view(&child_at(rows, parent, k)->0) == fields[k]) by {
        lemma_child_found(rows, parent, k);
        assert(shown.contains(rows_under(shown, parent)[k]));
        let i = choose|i: int| 0 <= i < shown.len() && shown[i] == under[k];
        assert(rows[i].parent == parent && rows[i].ordinal == k);
        let field = child_at(rows, parent, k)->0;
        let j = choose|j: int|
            0 <= j < rows.len() && (#[trigger] rows[j]).parent == parent && rows[j].ordinal == k
                && rows[j].field == field;
        assert(shown[j].parent == parent);
        let m = choose|m: int| 0 <= m < under.len() && under[m] == shown[j];
        assert(m == k);
    }
    assert(children_of(rows, parent) =~= fields);
}

/// Fields whose rows stand together in the whole pass the check of their trees.
proof fn lemma_trees(
    rows: Seq<FieldRow>,
    left: Seq<FieldRowView>,
    fields: Seq<FieldView>,
    parent: Option<u32>,
    right: Seq<FieldRowView>,
)
    requires
        field_rows_view(rows) == left + stored_fields(fields, parent, true) + right,
        all_field_ids(fields).no_duplicates(),
        without_mappings(fields),
        names_none_of(parent, all_field_ids(fields)),
        forall|x: u32| #[trigger]
            all_field_ids(fields).contains(x) ==> rows_under(left, Some(x)).len() == 0
                && rows_under(right, Some(x)).len() == 0,
    ensures
        trees_check(rows, fields) is Ok,
    decreases fields,
{
    if fields.len() > 0 {
        let last = fields.last();
        let front = fields.drop_last();
        let row = last_row(fields, parent, true);
        let head = stored_fields(front, parent, true).push(row);
        assert(head =~= stored_fields(front, parent, true) + seq![row]);
        lemma_last_apart(fields);
        reveal_with_fuel(without_mappings, 2);
        reveal_with_fuel(no_mapping_below, 2);
        lemma_ids(fields, last.field_id);
        if let Some(id) = parent {
            lemma_ids(fields, id);
        }
        let rest = seq![row] + below(last) + right;
        assert(field_rows_view(rows) =~= left + stored_fields(front, parent, true) + rest);
        assert forall|x: u32| #[trigger] all_field_ids(front).contains(x) implies rows_under(
            left,
            Some(x),
        ).len() == 0 && rows_under(rest, Some(x)).len() == 0 by {
            lemma_ids(fields, x);
            lemma_under_join(seq![row] + below(last), right, Some(x));
            lemma_under_join(seq![row], below(last), Some(x));
            lemma_none_under_field(last, Some(x));
            assert(parent != Some(x));
            assert(seq![row].drop_last() =~= Seq::<FieldRowView>::empty());
            reveal_with_fuel(rows_under, 2);
        }
        lemma_trees(rows, left, front, parent, rest);
        let ahead = left + head;
        assert(field_rows_view(rows) =~= ahead + below(last) + right);
        assert(rows_under(left, Some(last.field_id)).len() == 0);
        assert(rows_under(right, Some(last.field_id)).len() == 0);
        lemma_head_under(left, front, parent, row, last.field_id);
        assert forall|x: u32| #[trigger]
            all_field_ids(last.children).contains(x) implies rows_under(ahead, Some(x)).len() == 0
            && rows_under(right, Some(x)).len() == 0 by {
            lemma_ids(fields, x);
            lemma_head_under(left, front, parent, row, x);
        }
        lemma_tree(rows, ahead, last, right);
    }
}

/// No row of fields that were stored before stands under a later one.
proof fn lemma_head_under(
    left: Seq<FieldRowView>,
    front: Seq<FieldView>,
    parent: Option<u32>,
    row: FieldRowView,
    x: u32,
)
    requires
        rows_under(left, Some(x)).len() == 0,
        !all_field_ids(front).contains(x),
        row.parent == parent,
        parent != Some(x),
    ensures
        rows_under(left + stored_fields(front, parent, true).push(row), Some(x)).len() == 0,
{
    let head = stored_fields(front, parent, true).push(row);
    lemma_none_under(front, parent, true, Some(x));
    assert(head.drop_last() =~= stored_fields(front, parent, true));
    lemma_under_join(left, head, Some(x));
}

proof fn lemma_tree(
    rows: Seq<FieldRow>,
    left: Seq<FieldRowView>,
    field: FieldView,
    right: Seq<FieldRowView>,
)
    requires
        field_rows_view(rows) == left + below(field) + right,
        all_field_ids(field.children).no_duplicates(),
        !(field.kind is Mapping),
        without_mappings(field.children),
        !all_field_ids(field.children).contains(field.field_id),
        rows_under(left, Some(field.field_id)).len() == 0,
        rows_under(right, Some(field.field_id)).len() == 0,
        forall|x: u32| #[trigger]
            all_field_ids(field.children).contains(x) ==> rows_under(left, Some(x)).len() == 0
                && rows_under(right, Some(x)).len() == 0,
    ensures
        tree_check(rows, field) is Ok,
    decreases field,
{
    let parent = Some(field.field_id);
    reveal_with_fuel(below, 2);
    reveal_with_fuel(tree_check, 2);
    lemma_level_under(field.children, parent);
    lemma_under_join(left + below(field), right, parent);
    lemma_under_join(left, below(field), parent);
    assert(rows_under(left, parent) + rows_under(below(field), parent) + rows_under(right, parent)
        =~= level(field.children, parent));
    lemma_children(rows, parent, field.children);
    lemma_trees(rows, left, field.children, parent, right);
}

proof fn lemma_stored_ids(fields: Seq<FieldView>, parent: Option<u32>, ordered: bool, x: u32)
    ensures
        all_field_ids(fields).contains(x) <==> exists|i: int|
            0 <= i < stored_fields(fields, parent, ordered).len() && (#[trigger] stored_fields(
                fields,
                parent,
                ordered,
            )[i]).field.field_id == x,
    decreases fields,
{
    let rows = stored_fields(fields, parent, ordered);
    if fields.len() > 0 {
        let last = fields.last();
        let front = fields.drop_last();
        let inner = stored_fields(front, parent, ordered);
        let row = last_row(fields, parent, ordered);
        lemma_ids(fields, x);
        lemma_stored_ids(front, parent, ordered, x);
        lemma_below_ids(last, x);
        assert(rows[inner.len() as int] == row);
        if all_field_ids(front).contains(x) {
            let k = choose|k: int| 0 <= k < inner.len() && (#[trigger] inner[k]).field.field_id == x;
            assert(rows[k] == inner[k]);
        }
        if all_field_ids(last.children).contains(x) {
            let k = choose|k: int|
                0 <= k < below(last).len() && (#[trigger] below(last)[k]).field.field_id == x;
            assert(rows[inner.len() + 1 + k] == below(last)[k]);
        }
        if exists|i: int| 0 <= i < rows.len() && (#[trigger] rows[i]).field.field_id == x {
            let i = choose|i: int| 0 <= i < rows.len() && (#[trigger] rows[i]).field.field_id == x;
            if i < inner.len() {
                assert(inner[i] == rows[i]);
            } else if i > inner.len() {
                assert(below(last)[i - inner.len() - 1] == rows[i]);
            }
        }
    }
}

proof fn lemma_below_ids(field: FieldView, x: u32)
    ensures
        all_field_ids(field.children).contains(x) <==> exists|i: int|
            0 <= i < below(field).len() && (#[trigger] below(field)[i]).field.field_id == x,
    decreases field,
{
    reveal_with_fuel(below, 2);
    lemma_stored_ids(field.children, Some(field.field_id), !(field.kind is Mapping), x);
}

/// The rows that store fields with different identifiers, none of them a mapping,
/// pass the check of rows, and give the fields back.
pub proof fn lemma_stored_schema_is_valid(rows: Seq<FieldRow>, fields: Seq<FieldView>)
    requires
        field_rows_view(rows) == stored_fields(fields, None, true),
        all_field_ids(fields).no_duplicates(),
        without_mappings(fields),
    ensures
        rows_check(rows) is Ok,
        children_of(rows, None) == fields,
{
    let shown = field_rows_view(rows);
    lemma_level_under(fields, None);
    lemma_children(rows, None, fields);
    let empty = Seq::<FieldRowView>::empty();
    assert(empty + stored_fields(fields, None, true) + empty =~= stored_fields(fields, None, true));
    lemma_trees(rows, empty, fields, None, empty);
    assert forall|x: u32| #[trigger] all_field_ids(fields).contains(x) <==> has_row(rows, x) by {
        lemma_stored_ids(fields, None, true, x);
        if has_row(rows, x) {
            let i = choose|i: int|
                0 <= i < rows.len() && (#[trigger] rows[i]).field.field_id == x;
            assert(shown[i].field.field_id == x);
        }
        if all_field_ids(fields).contains(x) {
            let i = choose|i: int| 0 <= i < shown.len() && (#[trigger] shown[i]).field.field_id == x;
            assert(rows[i].field.field_id == x);
        }
    }
}

/// What the head of a new table says of its image.
pub open spec fn genesis_expected(
    expected: ExpectedImage,
    input: GenesisImage,
) -> bool {
    &&& expected.table_id == input.table_id
    &&& expected.table_version == 0
    &&& expected.semantic_state == input.semantic_state
    &&& expected.commit_id == input.commit_id
    &&& expected.commit_hash == input.commit_hash
    &&& expected.commit_uri@ == input.commit_uri@
    &&& expected.reader_features_json@ == input.reader_features_json@
    &&& expected.writer_features_json@ == input.writer_features_json@
    &&& texts_view(expected.reader_features@) == core_features()
    &&& texts_view(expected.writer_features@) == core_features()
    &&& expected.previous_semantic_state is None
}

/// The features that every table needs, in order of their names.
pub open spec fn core_features() -> Seq<Seq<char>> {
    seq!["otmp.core.v2"@, "otmp.data.parquet.v1"@, "otmp.metadata.sqlite3-cow.v1"@]
}

/// The image of a new table, whose schema has no identifier twice and no mapping,
/// is valid for the head that publishes it.
pub proof fn lemma_genesis_is_valid(
    rows: ImageRows,
    input: GenesisImage,
    schema: Schema,
    expected: ExpectedImage,
)
    requires
        genesis_rows(rows, input, schema),
        all_field_ids(fields_view(schema.fields@)).no_duplicates(),
        without_mappings(fields_view(schema.fields@)),
        genesis_expected(expected, input),
    ensures
        image_check(rows, expected) is Ok,
{
    let record = rows.schemas@[0];
    lemma_stored_schema_is_valid(record.fields@, fields_view(schema.fields@));
    assert(schema_check(record) is Ok);
    assert(schemas_check(rows.schemas@) is Ok) by {
        reveal_with_fuel(schemas_check, 2);
        assert(rows.schemas@.skip(1).len() == 0);
    }
    assert(rows.partition_specs@[0] == 0);
    assert(rows.sort_orders@[0] == 0);
    assert(rows.partition_specs@.contains(0));
    assert(rows.sort_orders@.contains(0));
    let commits = rows.commits@;
    assert(last_commits(commits, expected) == 1) by {
        reveal_with_fuel(last_commits, 2);
        assert(commits.drop_last().len() == 0);
    }
    assert(intents_of(rows.intents@, commits[0]) == 1) by {
        reveal_with_fuel(intents_of, 2);
        assert(rows.intents@.drop_last().len() == 0);
    }
    assert(paired(rows));
    assert(commits[0].table_version == 0);
    assert(contiguous(commits, 0));
    assert(is_main(rows.refs@[0]));
    assert(ref_in_shape(rows.refs@[0], 0)) by {
        reveal_strlit("branch");
        reveal_strlit("tag");
        assert("branch"@.len() != "tag"@.len());
    }
    assert(history_holds(rows, 0, 0));
    assert(history_check(rows, expected.table_version, rows.meta.last_sequence_number) is Ok);
    assert forall|m: Membership| #[trigger] listed(rows, rows.refs@[0].name@, m) <==> belongs(
        rows,
        Seq::empty(),
        m,
    ) by {}
    assert(membership_agrees(rows, rows.refs@[0].name@, Seq::empty()));
    assert(ref_check(rows, rows.refs@[0]) is Ok);
    assert(refs_check(rows, rows.refs@) is Ok) by {
        reveal_with_fuel(refs_check, 2);
        assert(rows.refs@.skip(1).len() == 0);
    }
    assert(descriptors_check(rows) is Ok);
    lemma_core_features(rows, "reader"@);
    lemma_core_features(rows, "writer"@);
    assert(features_match(rows, expected));
}

proof fn lemma_core_features(rows: ImageRows, side: Seq<char>)
    requires
        rows.features@.len() == 3,
        rows.features@[0].requirement@ == "both"@,
        rows.features@[1].requirement@ == "both"@,
        rows.features@[2].requirement@ == "both"@,
        rows.features@[0].name@ == core_features()[0],
        rows.features@[1].name@ == core_features()[1],
        rows.features@[2].name@ == core_features()[2],
    ensures
        required_features(rows.features@, side) == core_features(),
{
    reveal_with_fuel(required_features, 4);
    let all = rows.features@;
    assert(all.drop_last().drop_last().drop_last().len() == 0);
    assert(required_features(all, side) =~= core_features());
}

} // verus!

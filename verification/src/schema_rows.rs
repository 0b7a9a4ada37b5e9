//! Schemas as they are stored, one row for each field: whether the rows agree
//! with the types that the fields spell out.
use crate::error::{corrupt, ErrorView, RuntimeError};
use crate::schema::{
    all_field_ids, field_ids, field_view, fields_view, increasing, insert_number,
    lemma_fields_view, same_field, Field, FieldView,
};
use crate::tables::FieldRow;
use vstd::prelude::*;

verus! {

pub open spec fn is_child(row: FieldRow, parent: Option<u32>) -> bool {
    row.parent == parent
}

/// How many rows stand under a parent.
pub open spec fn child_count(rows: Seq<FieldRow>, parent: Option<u32>) -> nat
    decreases rows.len(),
{
    if rows.len() == 0 {
        0
    } else {
        child_count(rows.drop_last(), parent) + (if is_child(rows.last(), parent) {
            1nat
        } else {
            0nat
        })
    }
}

/// The first row under a parent with a given ordinal.
pub open spec fn child_at(rows: Seq<FieldRow>, parent: Option<u32>, ordinal: int) -> Option<Field>
    decreases rows.len(),
{
    if rows.len() == 0 {
        None
    } else if is_child(rows[0], parent) && rows[0].ordinal == ordinal {
        Some(rows[0].field)
    } else {
        child_at(rows.skip(1), parent, ordinal)
    }
}

/// As many ordinals from zero on as there are rows: each then stands once.
pub open spec fn ordinals_contiguous(rows: Seq<FieldRow>, parent: Option<u32>) -> bool {
    forall|k: int|
        0 <= k < child_count(rows, parent) ==> #[trigger] child_at(rows, parent, k) is Some
}

/// The fields under a parent, by their ordinals.
pub open spec fn children_of(rows: Seq<FieldRow>, parent: Option<u32>) -> Seq<FieldView> {
    Seq::new(
        child_count(rows, parent),
        |k: int| field_view(&child_at(rows, parent, k)->0),
    )
}

fn same_parent(a: &Option<u32>, b: &Option<u32>) -> (same: bool)
    ensures
        same == (*a == *b),
{
    match (a, b) {
        (Some(a), Some(b)) => *a == *b,
        (None, None) => true,
        _ => false,
    }
}

/// How many rows stand under a parent.
pub fn count_children(rows: &Vec<FieldRow>, parent: Option<u32>) -> (count: usize)
    ensures
        count == child_count(rows@, parent),
{
    let mut count: usize = 0;
    let mut i: usize = 0;
    assert(rows@.take(0) =~= Seq::<FieldRow>::empty());
    while i < rows.len()
        invariant
            i <= rows@.len(),
            count <= i,
            count == child_count(rows@.take(i as int), parent),
        decreases rows@.len() - i,
    {
        assert(rows@.take(i + 1).drop_last() =~= rows@.take(i as int));
        if same_parent(&rows[i].parent, &parent) {
            count = count + 1;
        }
        i = i + 1;
    }
    assert(rows@.take(i as int) =~= rows@);
    count
}

/// The first row under a parent with a given ordinal.
pub fn find_child<'a>(rows: &'a Vec<FieldRow>, parent: Option<u32>, ordinal: usize) -> (found: Option<
    &'a Field,
>)
    ensures
        match found {
            Some(field) => child_at(rows@, parent, ordinal as int) == Some(*field),
            None => child_at(rows@, parent, ordinal as int) is None,
        },
{
    assert(rows@.skip(0) =~= rows@);
    let mut i: usize = 0;
    while i < rows.len()
        invariant
            i <= rows@.len(),
            child_at(rows@, parent, ordinal as int) == child_at(
                rows@.skip(i as int),
                parent,
                ordinal as int,
            ),
        decreases rows@.len() - i,
    {
        assert(rows@.skip(i as int).skip(1) =~= rows@.skip(i + 1));
        if same_parent(&rows[i].parent, &parent) && rows[i].ordinal as usize == ordinal {
            return Some(&rows[i].field);
        }
        i = i + 1;
    }
    None
}

/// Whether the ordinals under a parent are unique and contiguous.
pub fn are_contiguous(rows: &Vec<FieldRow>, parent: Option<u32>) -> (ok: bool)
    ensures
        ok == ordinals_contiguous(rows@, parent),
{
    let count: usize = count_children(rows, parent);
    let mut k: usize = 0;
    while k < count
        invariant
            k <= count,
            count == child_count(rows@, parent),
            forall|j: int| 0 <= j < k ==> #[trigger] child_at(rows@, parent, j) is Some,
        decreases count - k,
    {
        if find_child(rows, parent, k).is_none() {
            return false;
        }
        k = k + 1;
    }
    true
}

/// Whether the rows under a parent are the given fields, in their order.
pub fn children_are(rows: &Vec<FieldRow>, parent: Option<u32>, expected: &Vec<Field>) -> (same: bool)
    requires
        ordinals_contiguous(rows@, parent),
    ensures
        same == (children_of(rows@, parent) == fields_view(expected@)),
{
    let count: usize = count_children(rows, parent);
    let ghost have = children_of(rows@, parent);
    let ghost want = fields_view(expected@);
    proof {
        lemma_fields_view(expected@);
    }
    if count != expected.len() {
        return false;
    }
    let mut k: usize = 0;
    while k < count
        invariant
            k <= count,
            count == child_count(rows@, parent),
            count == expected@.len(),
            ordinals_contiguous(rows@, parent),
            have == children_of(rows@, parent),
            want == fields_view(expected@),
            have.len() == count,
            want.len() == count,
            forall|j: int| 0 <= j < count ==> #[trigger] want[j] == field_view(&expected@[j]),
            forall|j: int| 0 <= j < k ==> #[trigger] have[j] == want[j],
        decreases count - k,
    {
        assert(child_at(rows@, parent, k as int) is Some);
        match find_child(rows, parent, k) {
            None => {
                return false;
            },
            Some(field) => {
                assert(have[k as int] == field_view(field));
                if !same_field(field, &expected[k]) {
                    assert(have[k as int] != want[k as int]);
                    return false;
                }
            },
        }
        assert(have[k as int] == want[k as int]);
        k = k + 1;
    }
    assert(have =~= want);
    true
}

pub open spec fn contiguity_error() -> ErrorView {
    ErrorView::Corrupt("field ordinals are not unique and contiguous"@)
}

/// Whether the rows below a field are the fields that its type spells out.
pub open spec fn tree_check(rows: Seq<FieldRow>, field: FieldView) -> Result<(), ErrorView>
    decreases field,
{
    let parent = Some(field.field_id);
    if !ordinals_contiguous(rows, parent) {
        Err(contiguity_error())
    } else if children_of(rows, parent) != field.children {
        Err(ErrorView::Corrupt("recursive type JSON disagrees with normalized field rows"@))
    } else {
        trees_check(rows, field.children)
    }
}

pub open spec fn trees_check(rows: Seq<FieldRow>, fields: Seq<FieldView>) -> Result<(), ErrorView>
    decreases fields,
{
    if fields.len() == 0 {
        Ok(())
    } else {
        match trees_check(rows, fields.drop_last()) {
            Err(e) => Err(e),
            Ok(()) => tree_check(rows, fields.last()),
        }
    }
}

pub proof fn lemma_trees_stop(rows: Seq<FieldRow>, fields: Seq<FieldView>, n: int)
    requires
        0 <= n <= fields.len(),
        trees_check(rows, fields.take(n)) is Err,
    ensures
        trees_check(rows, fields) == trees_check(rows, fields.take(n)),
    decreases fields.len(),
{
    if n < fields.len() {
        assert(fields.drop_last().take(n) =~= fields.take(n));
        lemma_trees_stop(rows, fields.drop_last(), n);
    } else {
        assert(fields.take(n) =~= fields);
    }
}

/// Checks the rows below a field.
pub fn validate_normalized_children(rows: &Vec<FieldRow>, field: &Field) -> (r: Result<
    (),
    RuntimeError,
>)
    ensures
        match r {
            Ok(()) => tree_check(rows@, field@) is Ok,
            Err(e) => tree_check(rows@, field@) == Err::<(), ErrorView>(e@),
        },
    decreases field,
{
    let parent: Option<u32> = Some(field.field_id);
    if !are_contiguous(rows, parent) {
        return Err(corrupt("field ordinals are not unique and contiguous"));
    }
    let children = &field.field_type.children;
    if !children_are(rows, parent, children) {
        return Err(corrupt("recursive type JSON disagrees with normalized field rows"));
    }
    let ghost all = fields_view(children@);
    proof {
        lemma_fields_view(children@);
        assert(all.take(0) =~= Seq::<FieldView>::empty());
    }
    let mut i: usize = 0;
    while i < children.len()
        invariant
            i <= children@.len(),
            *children == field.field_type.children,
            all == fields_view(children@),
            all == field@.children,
            all.len() == children@.len(),
            forall|k: int| 0 <= k < all.len() ==> #[trigger] all[k] == field_view(&children@[k]),
            tree_check(rows@, field@) == trees_check(rows@, all),
            trees_check(rows@, all.take(i as int)) is Ok,
        decreases children@.len() - i,
    {
        proof {
            assert(all.take(i + 1).drop_last() =~= all.take(i as int));
            if trees_check(rows@, all.take(i + 1)) is Err {
                lemma_trees_stop(rows@, all, i + 1);
            }
        }
        match validate_normalized_children(rows, &children[i]) {
            Err(e) => {
                return Err(e);
            },
            Ok(()) => {},
        }
        i = i + 1;
    }
    assert(all.take(i as int) =~= all);
    Ok(())
}

/// The identifiers of a field and all below it.
pub fn collect_field_ids(field: &Field, ids: &mut Vec<u32>)
    requires
        increasing(old(ids)@),
    ensures
        increasing(final(ids)@),
        forall|x: u32| #[trigger]
            final(ids)@.contains(x) <==> old(ids)@.contains(x) || field_ids(field@).contains(x),
    decreases field,
{
    insert_number(ids, field.field_id);
    let children = &field.field_type.children;
    let ghost all = fields_view(children@);
    let ghost own = seq![field.field_id];
    proof {
        lemma_fields_view(children@);
        assert(all.take(0) =~= Seq::<FieldView>::empty());
        assert(own[0] == field.field_id);
        assert(own + all_field_ids(all.take(0)) =~= own);
    }
    let mut i: usize = 0;
    while i < children.len()
        invariant
            i <= children@.len(),
            *children == field.field_type.children,
            all == fields_view(children@),
            all == field@.children,
            own == seq![field@.field_id],
            all.len() == children@.len(),
            forall|k: int| 0 <= k < all.len() ==> #[trigger] all[k] == field_view(&children@[k]),
            increasing(ids@),
            forall|x: u32| #[trigger]
                ids@.contains(x) <==> old(ids)@.contains(x) || (own + all_field_ids(
                    all.take(i as int),
                )).contains(x),
        decreases children@.len() - i,
    {
        let ghost before = ids@;
        collect_field_ids(&children[i], ids);
        proof {
            let done = all_field_ids(all.take(i as int));
            let more = field_ids(all[i as int]);
            assert(all.take(i + 1).drop_last() =~= all.take(i as int));
            assert(own + (done + more) =~= (own + done) + more);
            assert forall|x: u32| #[trigger] ids@.contains(x) <==> old(ids)@.contains(x) || (own
                + all_field_ids(all.take(i + 1))).contains(x) by {
                lemma_in_join(own + done, more, x);
            }
        }
        i = i + 1;
    }
    assert(all.take(i as int) =~= all);
}

pub proof fn lemma_in_join(a: Seq<u32>, b: Seq<u32>, x: u32)
    ensures
        (a + b).contains(x) <==> a.contains(x) || b.contains(x),
{
    let j = a + b;
    if j.contains(x) {
        let k = choose|k: int| 0 <= k < j.len() && j[k] == x;
        if k < a.len() {
            assert(a[k] == x);
        } else {
            assert(b[k - a.len()] == x);
        }
    }
    if a.contains(x) {
        let k = choose|k: int| 0 <= k < a.len() && a[k] == x;
        assert(j[k] == x);
    }
    if b.contains(x) {
        let k = choose|k: int| 0 <= k < b.len() && b[k] == x;
        assert(j[a.len() + k] == x);
    }
}

pub open spec fn has_row(rows: Seq<FieldRow>, id: u32) -> bool {
    exists|i: int| 0 <= i < rows.len() && (#[trigger] rows[i]).field.field_id == id
}

/// Whether the rows of a schema form its fields, each row once.
pub open spec fn rows_check(rows: Seq<FieldRow>) -> Result<(), ErrorView> {
    let roots = children_of(rows, None);
    if !ordinals_contiguous(rows, None) {
        Err(contiguity_error())
    } else if trees_check(rows, roots) is Err {
        trees_check(rows, roots)
    } else if forall|x: u32| #[trigger] all_field_ids(roots).contains(x) <==> has_row(rows, x) {
        Ok(())
    } else {
        Err(ErrorView::Corrupt("normalized schema contains unreachable field rows"@))
    }
}

fn lists_row(rows: &Vec<FieldRow>, id: u32) -> (found: bool)
    ensures
        found == has_row(rows@, id),
{
    let mut i: usize = 0;
    while i < rows.len()
        invariant
            i <= rows@.len(),
            forall|k: int| 0 <= k < i ==> (#[trigger] rows@[k]).field.field_id != id,
        decreases rows@.len() - i,
    {
        if rows[i].field.field_id == id {
            return true;
        }
        i = i + 1;
    }
    false
}

/// Checks the rows of one schema.
pub fn validate_rows(rows: &Vec<FieldRow>) -> (r: Result<(), RuntimeError>)
    ensures
        match r {
            Ok(()) => rows_check(rows@) is Ok,
            Err(e) => rows_check(rows@) == Err::<(), ErrorView>(e@),
        },
{
    if !are_contiguous(rows, None) {
        return Err(corrupt("field ordinals are not unique and contiguous"));
    }
    let count: usize = count_children(rows, None);
    let ghost roots = children_of(rows@, None);
    assert(roots.take(0) =~= Seq::<FieldView>::empty());
    let mut ids: Vec<u32> = Vec::new();
    let mut k: usize = 0;
    while k < count
        invariant
            k <= count,
            count == child_count(rows@, None),
            roots == children_of(rows@, None),
            roots.len() == count,
            ordinals_contiguous(rows@, None),
            trees_check(rows@, roots.take(k as int)) is Ok,
            increasing(ids@),
            forall|x: u32| #[trigger]
                ids@.contains(x) <==> all_field_ids(roots.take(k as int)).contains(x),
        decreases count - k,
    {
        assert(child_at(rows@, None, k as int) is Some);
        match find_child(rows, None, k) {
            None => {},
            Some(root) => {
                proof {
                    assert(roots[k as int] == field_view(root));
                    assert(roots.take(k + 1).drop_last() =~= roots.take(k as int));
                    if trees_check(rows@, roots.take(k + 1)) is Err {
                        lemma_trees_stop(rows@, roots, k + 1);
                    }
                }
                match validate_normalized_children(rows, root) {
                    Err(e) => {
                        return Err(e);
                    },
                    Ok(()) => {},
                }
                let ghost before = ids@;
                collect_field_ids(root, &mut ids);
                proof {
                    assert forall|x: u32| #[trigger] ids@.contains(x) <==> all_field_ids(
                        roots.take(k + 1),
                    ).contains(x) by {
                        lemma_in_join(
                            all_field_ids(roots.take(k as int)),
                            field_ids(roots[k as int]),
                            x,
                        );
                    }
                }
            },
        }
        k = k + 1;
    }
    assert(roots.take(k as int) =~= roots);
    let mut i: usize = 0;
    while i < ids.len()
        invariant
            i <= ids@.len(),
            roots == children_of(rows@, None),
            ordinals_contiguous(rows@, None),
            trees_check(rows@, roots) is Ok,
            forall|x: u32| #[trigger] ids@.contains(x) <==> all_field_ids(roots).contains(x),
            forall|n: int| 0 <= n < i ==> has_row(rows@, #[trigger] ids@[n]),
        decreases ids@.len() - i,
    {
        if !lists_row(rows, ids[i]) {
            assert(ids@.contains(ids@[i as int]));
            return Err(corrupt("normalized schema contains unreachable field rows"));
        }
        i = i + 1;
    }
    let mut j: usize = 0;
    while j < rows.len()
        invariant
            j <= rows@.len(),
            roots == children_of(rows@, None),
            ordinals_contiguous(rows@, None),
            trees_check(rows@, roots) is Ok,
            forall|x: u32| #[trigger] ids@.contains(x) <==> all_field_ids(roots).contains(x),
            forall|n: int| 0 <= n < j ==> ids@.contains((#[trigger] rows@[n]).field.field_id),
        decreases rows@.len() - j,
    {
        if !crate::catalog::holds_number(&ids, rows[j].field.field_id) {
            assert(has_row(rows@, rows@[j as int].field.field_id));
            return Err(corrupt("normalized schema contains unreachable field rows"));
        }
        j = j + 1;
    }
    proof {
        assert forall|x: u32| #[trigger] all_field_ids(roots).contains(x) <==> has_row(rows@, x) by {
            if all_field_ids(roots).contains(x) {
                assert(ids@.contains(x));
                let n = choose|n: int| 0 <= n < ids@.len() && ids@[n] == x;
                assert(has_row(rows@, ids@[n]));
            }
            if has_row(rows@, x) {
                let n = choose|n: int|
                    0 <= n < rows@.len() && (#[trigger] rows@[n]).field.field_id == x;
                assert(ids@.contains(rows@[n].field.field_id));
            }
        }
    }
    Ok(())
}

} // verus!

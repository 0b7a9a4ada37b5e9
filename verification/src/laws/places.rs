//! The fields of a schema by their place: the way down from the top, field by
//! field.
use crate::schema::{FieldView, KindView};
use vstd::prelude::*;

verus! {

/// The field at a place, where there is one.
pub open spec fn field_at(fields: Seq<FieldView>, place: Seq<int>) -> Option<FieldView>
    decreases place.len(),
{
    if place.len() == 0 || place[0] < 0 || place[0] >= fields.len() {
        None
    } else if place.len() == 1 {
        Some(fields[place[0]])
    } else {
        field_at(fields[place[0]].children, place.skip(1))
    }
}

/// A primitive kind; `float` asks for one whose values may be NaN.
pub open spec fn primitive(kind: KindView, float: bool) -> bool {
    kind matches KindView::Primitive(_, may_be_nan) && (float ==> may_be_nan)
}

/// A primitive field with that identifier stands somewhere among the fields.
pub open spec fn some_primitive(fields: Seq<FieldView>, id: u32, float: bool) -> bool {
    exists|place: Seq<int>|
        (#[trigger] field_at(fields, place)) matches Some(field) && field.field_id == id
            && primitive(field.kind, float)
}

/// Some field has that identifier, and every one that has it is primitive.
pub open spec fn only_primitives(fields: Seq<FieldView>, id: u32, float: bool) -> bool {
    &&& exists|place: Seq<int>|
        (#[trigger] field_at(fields, place)) matches Some(field) && field.field_id == id
    &&& forall|place: Seq<int>|
        ((#[trigger] field_at(fields, place)) matches Some(field) && field.field_id == id)
            ==> primitive(field_at(fields, place)->0.kind, float)
}

pub proof fn lemma_place_below(fields: Seq<FieldView>, i: int, place: Seq<int>)
    requires
        0 <= i < fields.len(),
        place.len() > 0,
    ensures
        field_at(fields, seq![i] + place) == field_at(fields[i].children, place),
{
    let below = seq![i] + place;
    assert(below[0] == i);
    assert(below.skip(1) =~= place);
}

} // verus!

//! Which transactions are accepted, and with which results, said of the table and
//! the request themselves.
use crate::catalog::{property_of, ref_of, snapshot_of, Catalog, RefType};
use crate::error::{ProtocolError, RuntimeError};
use crate::hash::Id;
use crate::schema::schema_additions;
use crate::text::texts_view;
use crate::transactions::{
    absent_lists, claim_keys, covers, evaluate, evaluation, lemma_evaluation, met, operation_step,
    prepare_operations, progress, property_times, result_is, times, update_keys, OperationRequest,
    OperationResult, Progress, Requirement, RequirementView, TransactionRequest,
};
use crate::value::ValueView;
use vstd::prelude::*;

verus! {

// ------------------------------------------------------------ requirements

/// The row at the place is the first with the key.
pub open spec fn is_property(catalog: Catalog, i: int, key: Seq<char>) -> bool {
    &&& 0 <= i < catalog.properties@.len()
    &&& catalog.properties@[i].key@ == key
    &&& forall|j: int| 0 <= j < i ==> (#[trigger] catalog.properties@[j]).key@ != key
}

/// The row at the place is the first with the name.
pub open spec fn is_ref(catalog: Catalog, i: int, name: Seq<char>) -> bool {
    &&& 0 <= i < catalog.refs@.len()
    &&& catalog.refs@[i].name@ == name
    &&& forall|j: int| 0 <= j < i ==> (#[trigger] catalog.refs@[j]).name@ != name
}

/// What a requirement asks of the rows of a table.
pub open spec fn meets(catalog: Catalog, requirement: Requirement) -> bool {
    match requirement {
        Requirement::PropertyIs { key, value } => {
            &&& forall|i: int| #[trigger]
                is_property(catalog, i, key@) ==> catalog.properties@[i].value@ == value@
            &&& (forall|i: int| !#[trigger] is_property(catalog, i, key@)) ==> value@
                == ValueView::Null
        },
        Requirement::RefAbsent { name } => forall|i: int|
            0 <= i < catalog.refs@.len() ==> (#[trigger] catalog.refs@[i]).name@ != name@,
        Requirement::RefExists { name, ref_type } => exists|i: int| #[trigger]
            is_ref(catalog, i, name@) && catalog.refs@[i].ref_type == ref_type,
        Requirement::RefSnapshotIs { name, snapshot_id } => exists|i: int| #[trigger]
            is_ref(catalog, i, name@) && catalog.refs@[i].snapshot_id == snapshot_id,
        Requirement::SnapshotExists { snapshot_id } => exists|i: int|
            0 <= i < catalog.snapshots@.len() && (#[trigger] catalog.snapshots@[i]).snapshot_id
                == snapshot_id,
        Requirement::CurrentSchemaIs { schema_id } => catalog.current_schema.schema_id == schema_id,
        Requirement::SchemaIdAbsent { schema_id } => forall|i: int|
            0 <= i < catalog.schema_ids@.len() ==> #[trigger] catalog.schema_ids@[i] != schema_id,
        Requirement::FieldIdsAbsent { field_ids } => {
            &&& forall|i: int|
                0 <= i < field_ids@.len() ==> #[trigger] field_ids@[i] != 0
            &&& forall|i: int, j: int|
                0 <= i < j < field_ids@.len() ==> #[trigger] field_ids@[i]
                    != #[trigger] field_ids@[j]
            &&& forall|i: int, j: int|
                0 <= i < field_ids@.len() && 0 <= j < catalog.field_ids@.len()
                    ==> #[trigger] field_ids@[i] != #[trigger] catalog.field_ids@[j]
        },
        Requirement::DefaultPartitionSpecIs { partition_spec_id } =>
            catalog.default_partition_spec_id == partition_spec_id,
        Requirement::DefaultSortOrderIs { sort_order_id } => catalog.default_sort_order_id
            == sort_order_id,
    }
}

proof fn lemma_property(
    properties: Seq<crate::catalog::PropertyRow>,
    key: Seq<char>,
) -> (i: int)
    ensures
        match property_of(properties, key) {
            Some(value) => {
                &&& 0 <= i < properties.len()
                &&& properties[i].key@ == key
                &&& properties[i].value@ == value
                &&& forall|j: int| 0 <= j < i ==> (#[trigger] properties[j]).key@ != key
            },
            None => forall|j: int|
                0 <= j < properties.len() ==> (#[trigger] properties[j]).key@ != key,
        },
    decreases properties.len(),
{
    if properties.len() == 0 || properties[0].key@ == key {
        0
    } else {
        let rest = properties.skip(1);
        let i = lemma_property(rest, key);
        assert forall|j: int| 0 < j < properties.len() implies #[trigger] properties[j] == rest[j
            - 1] by {}
        i + 1
    }
}

proof fn lemma_ref(refs: Seq<crate::catalog::RefRow>, name: Seq<char>) -> (i: int)
    ensures
        match ref_of(refs, name) {
            Some(found) => {
                &&& 0 <= i < refs.len()
                &&& refs[i].name@ == name
                &&& found == (refs[i].ref_type, refs[i].snapshot_id)
                &&& forall|j: int| 0 <= j < i ==> (#[trigger] refs[j]).name@ != name
            },
            None => forall|j: int| 0 <= j < refs.len() ==> (#[trigger] refs[j]).name@ != name,
        },
    decreases refs.len(),
{
    if refs.len() == 0 || refs[0].name@ == name {
        0
    } else {
        let rest = refs.skip(1);
        let i = lemma_ref(rest, name);
        assert forall|j: int| 0 < j < refs.len() implies #[trigger] refs[j] == rest[j - 1] by {}
        i + 1
    }
}

proof fn lemma_snapshot(rows: Seq<crate::catalog::SnapshotRow>, id: Id)
    ensures
        snapshot_of(rows, id) is Some <==> exists|i: int|
            0 <= i < rows.len() && (#[trigger] rows[i]).snapshot_id == id,
    decreases rows.len(),
{
    if rows.len() > 0 {
        let rest = rows.skip(1);
        lemma_snapshot(rest, id);
        assert forall|j: int| 0 < j < rows.len() implies #[trigger] rows[j] == rest[j - 1] by {}
        if rows[0].snapshot_id != id {
            if snapshot_of(rest, id) is Some {
                let i = choose|i: int|
                    0 <= i < rest.len() && (#[trigger] rest[i]).snapshot_id == id;
                assert(rows[i + 1].snapshot_id == id);
            }
            if exists|i: int| 0 <= i < rows.len() && (#[trigger] rows[i]).snapshot_id == id {
                let i = choose|i: int|
                    0 <= i < rows.len() && (#[trigger] rows[i]).snapshot_id == id;
                assert(rest[i - 1].snapshot_id == id);
            }
        }
    }
}

proof fn lemma_met(catalog: Catalog, requirement: Requirement)
    ensures
        met(catalog, requirement@) <==> meets(catalog, requirement),
{
    match requirement {
        Requirement::PropertyIs { key, value } => {
            let k = lemma_property(catalog.properties@, key@);
            if property_of(catalog.properties@, key@) is Some {
                assert(is_property(catalog, k, key@));
                assert forall|i: int| #[trigger] is_property(catalog, i, key@) implies i == k by {
                    if i < k {
                        assert(catalog.properties@[i].key@ != key@);
                    } else if k < i {
                        assert(catalog.properties@[k].key@ != key@);
                    }
                }
            } else {
                assert forall|i: int| !#[trigger] is_property(catalog, i, key@) by {}
            }
        },
        Requirement::RefAbsent { name } => {
            let k = lemma_ref(catalog.refs@, name@);
        },
        Requirement::RefExists { name, .. } => {
            lemma_first_ref(catalog, name@);
        },
        Requirement::RefSnapshotIs { name, .. } => {
            lemma_first_ref(catalog, name@);
        },
        Requirement::SnapshotExists { snapshot_id } => {
            lemma_snapshot(catalog.snapshots@, snapshot_id);
        },
        Requirement::SchemaIdAbsent { schema_id } => {
            if catalog.schema_ids@.contains(schema_id) {
                let i = choose|i: int|
                    0 <= i < catalog.schema_ids@.len() && catalog.schema_ids@[i] == schema_id;
                assert(catalog.schema_ids@[i] == schema_id);
            } else {
                assert forall|i: int|
                    0 <= i < catalog.schema_ids@.len() implies #[trigger] catalog.schema_ids@[i]
                    != schema_id by {
                    assert(catalog.schema_ids@.contains(catalog.schema_ids@[i]));
                }
            }
        },
        Requirement::FieldIdsAbsent { field_ids } => {
            let ids = field_ids@;
            if met(catalog, requirement@) {
                assert forall|i: int, j: int|
                    0 <= i < ids.len() && 0 <= j < catalog.field_ids@.len() implies #[trigger] ids[i]
                    != #[trigger] catalog.field_ids@[j] by {
                    assert(catalog.field_ids@.contains(catalog.field_ids@[j]));
                }
            }
            if meets(catalog, requirement) {
                assert forall|i: int| 0 <= i < ids.len() implies #[trigger] ids[i] != 0
                    && !catalog.field_ids@.contains(ids[i]) by {
                    if catalog.field_ids@.contains(ids[i]) {
                        let j = choose|j: int|
                            0 <= j < catalog.field_ids@.len() && catalog.field_ids@[j] == ids[i];
                        assert(ids[i] != catalog.field_ids@[j]);
                    }
                }
                assert forall|i: int, j: int|
                    0 <= i < ids.len() && 0 <= j < ids.len() && i != j implies ids[i] != ids[j] by {
                    if i < j {
                        assert(ids[i] != ids[j]);
                    } else {
                        assert(ids[j] != ids[i]);
                    }
                }
            }
        },
        _ => {},
    }
}

proof fn lemma_first_ref(catalog: Catalog, name: Seq<char>)
    ensures
        match ref_of(catalog.refs@, name) {
            Some(found) => {
                &&& exists|i: int| #[trigger] is_ref(catalog, i, name)
                &&& forall|i: int| #[trigger]
                    is_ref(catalog, i, name) ==> found == (
                        catalog.refs@[i].ref_type,
                        catalog.refs@[i].snapshot_id,
                    )
            },
            None => forall|i: int| !#[trigger] is_ref(catalog, i, name),
        },
{
    let k = lemma_ref(catalog.refs@, name);
    if ref_of(catalog.refs@, name) is Some {
        assert(is_ref(catalog, k, name));
        assert forall|i: int| #[trigger] is_ref(catalog, i, name) implies i == k by {
            if i < k {
                assert(catalog.refs@[i].name@ != name);
            } else if k < i {
                assert(catalog.refs@[k].name@ != name);
            }
        }
    }
}

/// Requirements hold of a table exactly if its rows are as each of them asks.
pub proof fn lemma_requirements_ask_of_rows(
    catalog: Catalog,
    requirements: Vec<Requirement>,
    shown: Vec<String>,
    r: Result<(), RuntimeError>,
)
    requires
        call_ensures(evaluate, (&catalog, &requirements, &shown), r),
        shown@.len() == requirements@.len(),
    ensures
        r is Ok <==> forall|i: int|
            0 <= i < requirements@.len() ==> meets(catalog, #[trigger] requirements@[i]),
        r matches Err(e) ==> e@ is SemanticConflict,
{
    lemma_evaluation(catalog, requirements@, texts_view(shown@));
    assert forall|i: int| 0 <= i < requirements@.len() implies (meets(
        catalog,
        #[trigger] requirements@[i],
    ) <==> met(catalog, requirements@[i]@)) by {
        lemma_met(catalog, requirements@[i]);
    }
    if r is Ok {
        assert forall|i: int| 0 <= i < requirements@.len() implies meets(
            catalog,
            #[trigger] requirements@[i],
        ) by {
            assert(met(catalog, requirements@[i]@));
        }
    } else {
        lemma_conflicts(catalog, requirements@, texts_view(shown@));
        if forall|i: int|
            0 <= i < requirements@.len() ==> meets(catalog, #[trigger] requirements@[i]) {
            assert forall|i: int| 0 <= i < requirements@.len() implies met(
                catalog,
                (#[trigger] requirements@[i])@,
            ) by {
                assert(meets(catalog, requirements@[i]));
            }
        }
    }
}

proof fn lemma_conflicts(catalog: Catalog, requirements: Seq<Requirement>, shown: Seq<Seq<char>>)
    ensures
        evaluation(catalog, requirements, shown) matches Err(e) ==> e is SemanticConflict,
    decreases requirements.len(),
{
    if requirements.len() > 0 {
        lemma_conflicts(catalog, requirements.skip(1), shown.skip(1));
    }
}

// ------------------------------------------------------------ operations

/// The requirement at the place is the only one that asks this.
pub open spec fn is_only(requirements: Seq<Requirement>, i: int, asked: RequirementView) -> bool {
    &&& 0 <= i < requirements.len()
    &&& requirements[i]@ == asked
    &&& forall|j: int|
        0 <= j < requirements.len() && j != i ==> (#[trigger] requirements[j])@ != asked
}

/// Exactly one requirement asks this.
pub open spec fn once(requirements: Seq<Requirement>, asked: RequirementView) -> bool {
    exists|i: int| #[trigger] is_only(requirements, i, asked)
}

pub open spec fn speaks_of(requirement: Requirement, key: Seq<char>) -> bool {
    requirement matches Requirement::PropertyIs { key: k, .. } && k@ == key
}

/// The requirement at the place is the only one on the property.
pub open spec fn is_only_on(requirements: Seq<Requirement>, i: int, key: Seq<char>) -> bool {
    &&& 0 <= i < requirements.len()
    &&& speaks_of(requirements[i], key)
    &&& forall|j: int|
        0 <= j < requirements.len() && j != i ==> !speaks_of(#[trigger] requirements[j], key)
}

pub open spec fn once_on(requirements: Seq<Requirement>, key: Seq<char>) -> bool {
    exists|i: int| #[trigger] is_only_on(requirements, i, key)
}

proof fn lemma_times(requirements: Seq<Requirement>, asked: RequirementView)
    ensures
        times(requirements, asked) == 0 <==> forall|i: int|
            0 <= i < requirements.len() ==> (#[trigger] requirements[i])@ != asked,
        times(requirements, asked) == 1 <==> once(requirements, asked),
    decreases requirements.len(),
{
    if requirements.len() > 0 {
        let front = requirements.drop_last();
        let n = requirements.len() - 1;
        lemma_times(front, asked);
        assert forall|i: int| 0 <= i < n implies #[trigger] requirements[i] == front[i] by {}
        if times(front, asked) == 0 {
            assert forall|i: int| 0 <= i < n implies (#[trigger] requirements[i])@ != asked by {
                assert(front[i]@ != asked);
            }
            if requirements[n]@ == asked {
                assert(is_only(requirements, n, asked));
            } else if once(requirements, asked) {
                let i = choose|i: int| #[trigger] is_only(requirements, i, asked);
                assert(requirements[i]@ == asked);
            }
        } else {
            let k = choose|k: int| 0 <= k < front.len() && (#[trigger] front[k])@ == asked;
            assert(requirements[k]@ == asked);
            if times(front, asked) == 1 && requirements[n]@ != asked {
                let i = choose|i: int| #[trigger] is_only(front, i, asked);
                assert forall|j: int| 0 <= j < requirements.len() && j != i implies (
                #[trigger] requirements[j])@ != asked by {
                    if j < n {
                        assert(front[j]@ != asked);
                    }
                }
                assert(is_only(requirements, i, asked));
            }
            if once(requirements, asked) {
                let i = choose|i: int| #[trigger] is_only(requirements, i, asked);
                assert(i == k);
                assert(requirements[n]@ != asked);
                assert forall|j: int| 0 <= j < front.len() && j != i implies (
                #[trigger] front[j])@ != asked by {
                    assert(requirements[j]@ != asked);
                }
                assert(is_only(front, i, asked));
            }
        }
    }
}

proof fn lemma_property_times(requirements: Seq<Requirement>, key: Seq<char>)
    ensures
        property_times(requirements, key) == 0 <==> forall|i: int|
            0 <= i < requirements.len() ==> !speaks_of(#[trigger] requirements[i], key),
        property_times(requirements, key) == 1 <==> once_on(requirements, key),
    decreases requirements.len(),
{
    if requirements.len() > 0 {
        let front = requirements.drop_last();
        let n = requirements.len() - 1;
        lemma_property_times(front, key);
        assert forall|i: int| 0 <= i < n implies #[trigger] requirements[i] == front[i] by {}
        let here = requirements.last()@ matches RequirementView::PropertyIs(k, _) && k == key;
        assert(here == speaks_of(requirements[n], key));
        if property_times(front, key) == 0 {
            assert forall|i: int| 0 <= i < n implies !speaks_of(
                #[trigger] requirements[i],
                key,
            ) by {
                assert(!speaks_of(front[i], key));
            }
            if here {
                assert(is_only_on(requirements, n, key));
            } else if once_on(requirements, key) {
                let i = choose|i: int| #[trigger] is_only_on(requirements, i, key);
                assert(speaks_of(requirements[i], key));
            }
        } else {
            let k = choose|k: int| 0 <= k < front.len() && speaks_of(#[trigger] front[k], key);
            assert(speaks_of(requirements[k], key));
            if property_times(front, key) == 1 && !here {
                let i = choose|i: int| #[trigger] is_only_on(front, i, key);
                assert forall|j: int| 0 <= j < requirements.len() && j != i implies !speaks_of(
                    #[trigger] requirements[j],
                    key,
                ) by {
                    if j < n {
                        assert(!speaks_of(front[j], key));
                    }
                }
                assert(is_only_on(requirements, i, key));
            }
            if once_on(requirements, key) {
                let i = choose|i: int| #[trigger] is_only_on(requirements, i, key);
                assert(i == k);
                assert(!speaks_of(requirements[n], key));
                assert forall|j: int| 0 <= j < front.len() && j != i implies !speaks_of(
                    #[trigger] front[j],
                    key,
                ) by {
                    assert(!speaks_of(requirements[j], key));
                }
                assert(is_only_on(front, i, key));
            }
        }
    }
}

/// The properties that an operation changes: those that it updates, then those that
/// it removes.
pub open spec fn own_keys(operation: OperationRequest) -> Seq<Seq<char>> {
    match operation {
        OperationRequest::SetProperties { updates, removals, .. } => Seq::new(
            (updates@.len() + removals@.len()) as nat,
            |i: int|
                if i < updates@.len() {
                    updates@[i].key@
                } else {
                    removals@[i - updates@.len()]@
                },
        ),
        _ => Seq::empty(),
    }
}

/// The ref that an operation changes.
pub open spec fn own_refs(operation: OperationRequest) -> Seq<Seq<char>> {
    match operation {
        OperationRequest::CreateRef { name, .. } => seq![name@],
        OperationRequest::ReplaceRef { name, .. } => seq![name@],
        OperationRequest::DropRef { name, .. } => seq![name@],
        _ => Seq::empty(),
    }
}

pub open spec fn all_keys(operations: Seq<OperationRequest>) -> Seq<Seq<char>>
    decreases operations.len(),
{
    if operations.len() == 0 {
        Seq::empty()
    } else {
        all_keys(operations.drop_last()) + own_keys(operations.last())
    }
}

pub open spec fn all_refs(operations: Seq<OperationRequest>) -> Seq<Seq<char>>
    decreases operations.len(),
{
    if operations.len() == 0 {
        Seq::empty()
    } else {
        all_refs(operations.drop_last()) + own_refs(operations.last())
    }
}

pub open spec fn own_id(operation: OperationRequest) -> Seq<char> {
    match operation {
        OperationRequest::SetProperties { operation_id, .. } => operation_id@,
        OperationRequest::CreateRef { operation_id, .. } => operation_id@,
        OperationRequest::ReplaceRef { operation_id, .. } => operation_id@,
        OperationRequest::DropRef { operation_id, .. } => operation_id@,
        OperationRequest::AddSchema { operation_id, .. } => operation_id@,
        OperationRequest::SetCurrentSchema { operation_id, .. } => operation_id@,
    }
}

pub open spec fn all_ids(operations: Seq<OperationRequest>) -> Seq<Seq<char>> {
    Seq::new(operations.len(), |i: int| own_id(operations[i]))
}

/// A key that a caller may set: not empty, and not one of the runtime's own.
pub open spec fn free_key(key: Seq<char>) -> bool {
    &&& key.len() > 0
    &&& !(key.len() >= 5 && key[0] == 'o' && key[1] == 't' && key[2] == 'm' && key[3] == 'p'
        && key[4] == '.')
}

/// A name that a ref may have: not empty, and without control characters.
pub open spec fn good_name(name: Seq<char>) -> bool {
    &&& name.len() > 0
    &&& forall|i: int|
        0 <= i < name.len() ==> {
            let c = #[trigger] name[i] as u32;
            0x20 <= c && !(0x7f <= c <= 0x9f)
        }
}

/// The one list of absent fields among the requirements names each added field once,
/// and no other.
pub open spec fn is_field_list(requirements: Seq<Requirement>, i: int, added: Seq<u32>) -> bool {
    &&& 0 <= i < requirements.len()
    &&& requirements[i] matches Requirement::FieldIdsAbsent { field_ids } && {
        &&& forall|k: int, l: int|
            0 <= k < l < field_ids@.len() ==> #[trigger] field_ids@[k] != #[trigger] field_ids@[l]
        &&& forall|id: u32| #[trigger] field_ids@.contains(id) <==> added.contains(id)
    }
    &&& forall|j: int|
        0 <= j < requirements.len() && j != i ==> !((#[trigger] requirements[j])
            is FieldIdsAbsent)
}

/// What an operation needs on its own: the values and names that it gives, and the
/// requirements that guard it.
pub open spec fn ready(
    catalog: Catalog,
    requirements: Seq<Requirement>,
    problem: Option<ProtocolError>,
    operation: OperationRequest,
) -> bool {
    match operation {
        OperationRequest::SetProperties { updates, .. } => {
            &&& forall|i: int|
                0 <= i < updates@.len() ==> (#[trigger] updates@[i]).value@ != ValueView::Null
            &&& forall|i: int|
                0 <= i < own_keys(operation).len() ==> free_key(#[trigger] own_keys(operation)[i])
            &&& forall|i: int|
                0 <= i < own_keys(operation).len() ==> once_on(
                    requirements,
                    #[trigger] own_keys(operation)[i],
                )
        },
        OperationRequest::CreateRef { name, ref_type, snapshot_id, .. } => {
            &&& good_name(name@)
            &&& once(requirements, RequirementView::RefAbsent(name@))
            &&& ref_type == RefType::Tag ==> snapshot_id is Some
            &&& snapshot_id matches Some(id) ==> once(
                requirements,
                RequirementView::SnapshotExists(id),
            )
        },
        OperationRequest::ReplaceRef { name, snapshot_id, .. } => {
            &&& good_name(name@)
            &&& exists|i: int| #[trigger]
                is_ref(catalog, i, name@) && once(
                    requirements,
                    RequirementView::RefSnapshotIs(name@, catalog.refs@[i].snapshot_id),
                )
            &&& once(requirements, RequirementView::RefExists(name@, RefType::Branch))
            &&& once(requirements, RequirementView::SnapshotExists(snapshot_id))
        },
        OperationRequest::DropRef { name, .. } => {
            &&& good_name(name@)
            &&& name@ != "main"@
            &&& exists|i: int| #[trigger]
                is_ref(catalog, i, name@) && once(
                    requirements,
                    RequirementView::RefSnapshotIs(name@, catalog.refs@[i].snapshot_id),
                ) && once(
                    requirements,
                    RequirementView::RefExists(name@, catalog.refs@[i].ref_type),
                )
        },
        OperationRequest::AddSchema { schema, .. } => {
            &&& problem is None
            &&& once(
                requirements,
                RequirementView::CurrentSchemaIs(catalog.current_schema.schema_id),
            )
            &&& once(requirements, RequirementView::SchemaIdAbsent(schema.schema_id))
            &&& schema_additions(catalog.current_schema@, schema@) matches Ok(added) && exists|
                i: int,
            | #[trigger]
                is_field_list(requirements, i, added)
        },
        OperationRequest::SetCurrentSchema { .. } => once(
            requirements,
            RequirementView::CurrentSchemaIs(catalog.current_schema.schema_id),
        ),
    }
}

/// The operations of a transaction, each ready on its own, and no two in each other's
/// way.
pub open spec fn all_ready(
    catalog: Catalog,
    requirements: Seq<Requirement>,
    problem: Option<ProtocolError>,
    operations: Seq<OperationRequest>,
) -> bool {
    &&& forall|i: int|
        0 <= i < operations.len() ==> ready(
            catalog,
            requirements,
            problem,
            #[trigger] operations[i],
        )
    &&& forall|i: int| 0 <= i < operations.len() ==> own_id(#[trigger] operations[i]).len() > 0
    &&& all_ids(operations).no_duplicates()
    &&& all_keys(operations).no_duplicates()
    &&& all_refs(operations).no_duplicates()
    &&& forall|i: int, j: int|
        0 <= i < j < operations.len() ==> !((#[trigger] operations[i]) is AddSchema && (
        #[trigger] operations[j]) is AddSchema)
    &&& forall|i: int, j: int|
        0 <= i < j < operations.len() ==> !((#[trigger] operations[i]) is SetCurrentSchema && (
        #[trigger] operations[j]) is SetCurrentSchema)
}

proof fn lemma_joined<A>(a: Seq<A>, b: Seq<A>)
    ensures
        (a + b).no_duplicates() ==> a.no_duplicates() && b.no_duplicates(),
        (a + b).no_duplicates() ==> forall|i: int, j: int|
            0 <= i < a.len() && 0 <= j < b.len() ==> a[i] != b[j],
{
    let all = a + b;
    if all.no_duplicates() {
        assert forall|i: int, j: int|
            0 <= i < a.len() && 0 <= j < a.len() && i != j implies a[i] != a[j] by {
            assert(all[i] != all[j]);
        }
        assert forall|i: int, j: int|
            0 <= i < b.len() && 0 <= j < b.len() && i != j implies b[i] != b[j] by {
            assert(all[a.len() + i] != all[a.len() + j]);
        }
        assert forall|i: int, j: int| 0 <= i < a.len() && 0 <= j < b.len() implies a[i]
            != b[j] by {
            assert(all[i] != all[a.len() + j]);
        }
    }
}

proof fn lemma_pushed<A>(a: Seq<A>, x: A)
    ensures
        a.push(x).no_duplicates() <==> a.no_duplicates() && !a.contains(x),
{
    let all = a.push(x);
    if all.no_duplicates() {
        assert forall|i: int, j: int|
            0 <= i < a.len() && 0 <= j < a.len() && i != j implies a[i] != a[j] by {
            assert(all[i] != all[j]);
        }
        if a.contains(x) {
            let i = choose|i: int| 0 <= i < a.len() && a[i] == x;
            assert(all[i] != all[a.len() as int]);
        }
    }
    if a.no_duplicates() && !a.contains(x) {
        assert forall|i: int, j: int|
            0 <= i < all.len() && 0 <= j < all.len() && i != j implies all[i] != all[j] by {
            if i == a.len() {
                assert(a.contains(a[j]));
            } else if j == a.len() {
                assert(a.contains(a[i]));
            }
        }
    }
}

proof fn lemma_free(key: Seq<char>)
    ensures
        free_key(key) <==> key.len() > 0 && !crate::text::begins(key, "otmp."@),
{
    reveal_strlit("otmp.");
    let prefix = "otmp."@;
    if key.len() >= 5 {
        let head = key.take(5);
        if crate::text::begins(key, prefix) {
            assert(head[0] == prefix[0] && head[1] == prefix[1] && head[2] == prefix[2] && head[3]
                == prefix[3] && head[4] == prefix[4]);
        }
        if key[0] == 'o' && key[1] == 't' && key[2] == 'm' && key[3] == 'p' && key[4] == '.' {
            assert(head =~= prefix);
        }
    }
}

proof fn lemma_name(name: Seq<char>)
    ensures
        good_name(name) <==> name.len() > 0 && crate::text::without_control(name),
{
    if good_name(name) {
        assert forall|i: int| 0 <= i < name.len() implies !crate::text::control(
            #[trigger] name[i],
        ) by {
            let c = name[i] as u32;
        }
    }
    if crate::text::without_control(name) {
        assert forall|i: int| 0 <= i < name.len() implies {
            let c = #[trigger] name[i] as u32;
            0x20 <= c && !(0x7f <= c <= 0x9f)
        } by {
            assert(!crate::text::control(name[i]));
        }
    }
}

proof fn lemma_claims(
    requirements: Seq<Requirement>,
    claimed: Seq<Seq<char>>,
    keys: Seq<Seq<char>>,
)
    requires
        claimed.no_duplicates(),
    ensures
        claim_keys(requirements, claimed, keys) is Ok <==> {
            &&& forall|i: int| 0 <= i < keys.len() ==> free_key(#[trigger] keys[i])
            &&& forall|i: int| 0 <= i < keys.len() ==> once_on(requirements, #[trigger] keys[i])
            &&& (claimed + keys).no_duplicates()
        },
        claim_keys(requirements, claimed, keys) matches Ok(all) ==> all == claimed + keys,
    decreases keys.len(),
{
    if keys.len() == 0 {
        assert(claimed + keys =~= claimed);
    } else {
        let front = keys.drop_last();
        let n = keys.len() - 1;
        let key = keys.last();
        lemma_claims(requirements, claimed, front);
        lemma_free(key);
        lemma_property_times(requirements, key);
        lemma_pushed(claimed + front, key);
        assert((claimed + front).push(key) =~= claimed + keys);
        assert forall|i: int| 0 <= i < n implies #[trigger] keys[i] == front[i] by {}
        if claim_keys(requirements, claimed, keys) is Ok {
            assert forall|i: int| 0 <= i < keys.len() implies free_key(#[trigger] keys[i])
                && once_on(requirements, keys[i]) by {
                if i < n {
                    assert(free_key(front[i]));
                    assert(once_on(requirements, front[i]));
                }
            }
        } else if (forall|i: int| 0 <= i < keys.len() ==> free_key(#[trigger] keys[i])) && (forall|
            i: int,
        |
            0 <= i < keys.len() ==> once_on(requirements, #[trigger] keys[i])) && (claimed
            + keys).no_duplicates() {
            assert forall|i: int| 0 <= i < front.len() implies free_key(#[trigger] front[i])
                && once_on(requirements, front[i]) by {
                assert(front[i] == keys[i]);
            }
            assert(keys[n] == key);
            assert(free_key(keys[n]));
        }
    }
}

proof fn lemma_field_lists(requirements: Seq<Requirement>, added: Seq<u32>)
    ensures
        absent_lists(requirements).len() == 0 <==> forall|i: int|
            0 <= i < requirements.len() ==> !((#[trigger] requirements[i]) is FieldIdsAbsent),
        absent_lists(requirements).len() == 1 && covers(absent_lists(requirements)[0], added)
            <==> exists|i: int| #[trigger] is_field_list(requirements, i, added),
    decreases requirements.len(),
{
    if requirements.len() > 0 {
        let front = requirements.drop_last();
        let n = requirements.len() - 1;
        lemma_field_lists(front, added);
        assert forall|i: int| 0 <= i < n implies #[trigger] requirements[i] == front[i] by {}
        let lists = absent_lists(requirements);
        if absent_lists(front).len() == 0 {
            assert forall|i: int| 0 <= i < n implies !((#[trigger] requirements[i])
                is FieldIdsAbsent) by {
                assert(!(front[i] is FieldIdsAbsent));
            }
            if let Requirement::FieldIdsAbsent { field_ids } = requirements[n] {
                assert(lists[0] == field_ids@);
                lemma_covers(field_ids@, added);
                if covers(field_ids@, added) {
                    assert(is_field_list(requirements, n, added));
                }
            }
            if exists|i: int| #[trigger] is_field_list(requirements, i, added) {
                let i = choose|i: int| #[trigger] is_field_list(requirements, i, added);
                assert(requirements[i] is FieldIdsAbsent);
                assert(i == n);
            }
        } else {
            let k = choose|k: int|
                0 <= k < front.len() && (#[trigger] front[k]) is FieldIdsAbsent;
            assert(requirements[k] is FieldIdsAbsent);
            if requirements[n] is FieldIdsAbsent {
                assert(lists.len() > 1);
                if exists|i: int| #[trigger] is_field_list(requirements, i, added) {
                    let i = choose|i: int| #[trigger] is_field_list(requirements, i, added);
                    assert(i == k);
                    assert(!(requirements[n] is FieldIdsAbsent));
                }
            } else {
                assert(lists == absent_lists(front));
                if exists|i: int| #[trigger] is_field_list(requirements, i, added) {
                    let i = choose|i: int| #[trigger] is_field_list(requirements, i, added);
                    assert(i == k);
                    assert forall|j: int| 0 <= j < front.len() && j != i implies !((
                    #[trigger] front[j]) is FieldIdsAbsent) by {
                        assert(requirements[j] == front[j]);
                    }
                    assert(is_field_list(front, i, added));
                }
                if exists|i: int| #[trigger] is_field_list(front, i, added) {
                    let i = choose|i: int| #[trigger] is_field_list(front, i, added);
                    assert forall|j: int| 0 <= j < requirements.len() && j != i implies !((
                    #[trigger] requirements[j]) is FieldIdsAbsent) by {
                        if j < n {
                            assert(requirements[j] == front[j]);
                        }
                    }
                    assert(is_field_list(requirements, i, added));
                }
            }
        }
    }
}

proof fn lemma_covers(ids: Seq<u32>, added: Seq<u32>)
    ensures
        covers(ids, added) <==> {
            &&& forall|k: int, l: int|
                0 <= k < l < ids.len() ==> #[trigger] ids[k] != #[trigger] ids[l]
            &&& forall|id: u32| #[trigger] ids.contains(id) <==> added.contains(id)
        },
{
    if forall|k: int, l: int| 0 <= k < l < ids.len() ==> #[trigger] ids[k] != #[trigger] ids[l] {
        assert forall|k: int, l: int| 0 <= k < ids.len() && 0 <= l < ids.len() && k
            != l implies ids[k] != ids[l] by {
            if k < l {
                assert(ids[k] != ids[l]);
            } else {
                assert(ids[l] != ids[k]);
            }
        }
    }
}

/// What an operation adds to the claims, where it is ready.
proof fn lemma_step(
    catalog: Catalog,
    requirements: Seq<Requirement>,
    problem: Option<ProtocolError>,
    before: Progress,
    operation: OperationRequest,
)
    requires
        before.keys.no_duplicates(),
        before.refs.no_duplicates(),
    ensures
        operation_step(catalog, requirements, problem, before, operation) is Ok <==> {
            &&& ready(catalog, requirements, problem, operation)
            &&& (before.keys + own_keys(operation)).no_duplicates()
            &&& (before.refs + own_refs(operation)).no_duplicates()
            &&& operation is AddSchema ==> !before.added_schema
            &&& operation is SetCurrentSchema ==> !before.set_schema
        },
        operation_step(catalog, requirements, problem, before, operation) matches Ok(done) ==> {
            &&& done.ids == before.ids
            &&& done.keys == before.keys + own_keys(operation)
            &&& done.refs == before.refs + own_refs(operation)
            &&& done.added_schema == (before.added_schema || operation is AddSchema)
            &&& done.set_schema == (before.set_schema || operation is SetCurrentSchema)
            &&& done.results.len() == before.results.len() + 1
            &&& done.results.drop_last() == before.results
        },
{
    assert(before.keys + Seq::<Seq<char>>::empty() =~= before.keys);
    assert(before.refs + Seq::<Seq<char>>::empty() =~= before.refs);
    let step = operation_step(catalog, requirements, problem, before, operation);
    match operation {
        OperationRequest::SetProperties { updates, removals, .. } => {
            let keys = update_keys(updates@) + texts_view(removals@);
            assert(own_keys(operation) =~= keys);
            lemma_claims(requirements, before.keys, keys);
            if forall|i: int|
                0 <= i < updates@.len() ==> (#[trigger] updates@[i]).value@ != ValueView::Null {
                assert(!crate::transactions::has_null(updates@));
            } else {
                let i = choose|i: int|
                    0 <= i < updates@.len() && (#[trigger] updates@[i]).value@ == ValueView::Null;
                assert(crate::transactions::has_null(updates@));
            }
        },
        OperationRequest::CreateRef { name, ref_type, snapshot_id, .. } => {
            lemma_name(name@);
            lemma_times(requirements, RequirementView::RefAbsent(name@));
            if let Some(id) = snapshot_id {
                lemma_times(requirements, RequirementView::SnapshotExists(id));
            }
            lemma_pushed(before.refs, name@);
            assert(before.refs.push(name@) =~= before.refs + own_refs(operation));
        },
        OperationRequest::ReplaceRef { name, snapshot_id, .. } => {
            lemma_name(name@);
            lemma_first_ref(catalog, name@);
            lemma_times(requirements, RequirementView::RefExists(name@, RefType::Branch));
            lemma_times(requirements, RequirementView::SnapshotExists(snapshot_id));
            if let Some((_, former)) = ref_of(catalog.refs@, name@) {
                lemma_times(requirements, RequirementView::RefSnapshotIs(name@, former));
            }
            lemma_pushed(before.refs, name@);
            assert(before.refs.push(name@) =~= before.refs + own_refs(operation));
        },
        OperationRequest::DropRef { name, .. } => {
            lemma_name(name@);
            lemma_first_ref(catalog, name@);
            if let Some((kind, former)) = ref_of(catalog.refs@, name@) {
                lemma_times(requirements, RequirementView::RefExists(name@, kind));
                lemma_times(requirements, RequirementView::RefSnapshotIs(name@, former));
            }
            lemma_pushed(before.refs, name@);
            assert(before.refs.push(name@) =~= before.refs + own_refs(operation));
        },
        OperationRequest::AddSchema { schema, .. } => {
            lemma_times(
                requirements,
                RequirementView::CurrentSchemaIs(catalog.current_schema.schema_id),
            );
            lemma_times(requirements, RequirementView::SchemaIdAbsent(schema.schema_id));
            if let Ok(added) = schema_additions(catalog.current_schema@, schema@) {
                lemma_field_lists(requirements, added);
            }
        },
        OperationRequest::SetCurrentSchema { .. } => {
            lemma_times(
                requirements,
                RequirementView::CurrentSchemaIs(catalog.current_schema.schema_id),
            );
        },
    }
    if let Ok(done) = step {
        assert(done.results.drop_last() =~= before.results);
    }
}

#[verifier::rlimit(60)]
#[verifier::spinoff_prover]
proof fn lemma_progress(
    catalog: Catalog,
    requirements: Seq<Requirement>,
    problem: Option<ProtocolError>,
    operations: Seq<OperationRequest>,
)
    ensures
        progress(catalog, requirements, problem, operations) is Ok <==> all_ready(
            catalog,
            requirements,
            problem,
            operations,
        ),
        progress(catalog, requirements, problem, operations) matches Ok(done) ==> {
            &&& done.ids == all_ids(operations)
            &&& done.keys == all_keys(operations)
            &&& done.refs == all_refs(operations)
            &&& done.added_schema == exists|i: int|
                0 <= i < operations.len() && (#[trigger] operations[i]) is AddSchema
            &&& done.set_schema == exists|i: int|
                0 <= i < operations.len() && (#[trigger] operations[i]) is SetCurrentSchema
            &&& done.results.len() == operations.len()
        },
    decreases operations.len(),
{
    if operations.len() == 0 {
        assert(all_ids(operations) =~= Seq::<Seq<char>>::empty());
    } else {
        let front = operations.drop_last();
        let last = operations.last();
        let n = operations.len() - 1;
        lemma_progress(catalog, requirements, problem, front);
        assert forall|i: int| 0 <= i < n implies #[trigger] operations[i] == front[i] by {}
        assert(operations[n] == last);
        let id = own_id(last);
        assert(all_ids(operations) =~= all_ids(front).push(id));
        lemma_pushed(all_ids(front), id);
        lemma_joined(all_keys(front), own_keys(last));
        lemma_joined(all_refs(front), own_refs(last));
        let whole = progress(catalog, requirements, problem, operations);
        if let Ok(before) = progress(catalog, requirements, problem, front) {
            let with_id = Progress { ids: before.ids.push(id), ..before };
            lemma_step(catalog, requirements, problem, with_id, last);
            if whole is Ok {
                assert forall|i: int| 0 <= i < operations.len() implies ready(
                    catalog,
                    requirements,
                    problem,
                    #[trigger] operations[i],
                ) && own_id(operations[i]).len() > 0 by {
                    if i < n {
                        assert(ready(catalog, requirements, problem, front[i]));
                        assert(own_id(front[i]).len() > 0);
                    }
                }
                assert forall|i: int, j: int| 0 <= i < j < operations.len() implies !((
                #[trigger] operations[i]) is AddSchema && (#[trigger] operations[j]) is AddSchema)
                    && !(operations[i] is SetCurrentSchema && operations[j]
                    is SetCurrentSchema) by {
                    assert(front[i] == operations[i]);
                    if j < n {
                        assert(front[j] == operations[j]);
                    }
                }
                lemma_flags(front, last);
            } else if all_ready(catalog, requirements, problem, operations) {
                assert(ready(catalog, requirements, problem, operations[n]));
                assert(own_id(operations[n]).len() > 0);
                if last is AddSchema && before.added_schema {
                    let i = choose|i: int|
                        0 <= i < front.len() && (#[trigger] front[i]) is AddSchema;
                    assert(operations[i] is AddSchema && operations[n] is AddSchema);
                }
                if last is SetCurrentSchema && before.set_schema {
                    let i = choose|i: int|
                        0 <= i < front.len() && (#[trigger] front[i]) is SetCurrentSchema;
                    assert(operations[i] is SetCurrentSchema && operations[n]
                        is SetCurrentSchema);
                }
            }
        } else if all_ready(catalog, requirements, problem, operations) {
            assert forall|i: int| 0 <= i < front.len() implies ready(
                catalog,
                requirements,
                problem,
                #[trigger] front[i],
            ) && own_id(front[i]).len() > 0 by {
                assert(operations[i] == front[i]);
                assert(ready(catalog, requirements, problem, operations[i]));
                assert(own_id(operations[i]).len() > 0);
            }
            assert forall|i: int, j: int| 0 <= i < j < front.len() implies !((#[trigger] front[i])
                is AddSchema && (#[trigger] front[j]) is AddSchema) && !(front[i]
                is SetCurrentSchema && front[j] is SetCurrentSchema) by {
                assert(operations[i] == front[i] && operations[j] == front[j]);
            }
            assert(all_ready(catalog, requirements, problem, front));
        }
    }
}

proof fn lemma_flags(front: Seq<OperationRequest>, last: OperationRequest)
    ensures
        ({
            let all = front.push(last);
            &&& (exists|i: int| 0 <= i < all.len() && (#[trigger] all[i]) is AddSchema) == ((exists|
                i: int,
            |
                0 <= i < front.len() && (#[trigger] front[i]) is AddSchema) || last is AddSchema)
            &&& (exists|i: int| 0 <= i < all.len() && (#[trigger] all[i]) is SetCurrentSchema) == ((
            exists|i: int|
                0 <= i < front.len() && (#[trigger] front[i]) is SetCurrentSchema) || last
                is SetCurrentSchema)
        }),
        forall|all: Seq<OperationRequest>|
            all.len() > 0 && all.drop_last() == front && all.last() == last ==> #[trigger] all.len()
                == front.push(last).len() && all == front.push(last),
{
    let all = front.push(last);
    assert(all[front.len() as int] == last);
    assert forall|i: int| 0 <= i < front.len() implies #[trigger] front[i] == all[i] by {}
    if exists|i: int| 0 <= i < front.len() && (#[trigger] front[i]) is AddSchema {
        let i = choose|i: int| 0 <= i < front.len() && (#[trigger] front[i]) is AddSchema;
        assert(all[i] is AddSchema);
    }
    if exists|i: int| 0 <= i < front.len() && (#[trigger] front[i]) is SetCurrentSchema {
        let i = choose|i: int| 0 <= i < front.len() && (#[trigger] front[i]) is SetCurrentSchema;
        assert(all[i] is SetCurrentSchema);
    }
    assert forall|whole: Seq<OperationRequest>|
        whole.len() > 0 && whole.drop_last() == front && whole.last()
            == last implies #[trigger] whole.len() == all.len() && whole == all by {
        assert(whole =~= whole.drop_last().push(whole.last()));
    }
}

/// The result tells what the operation does: the properties that it changes, each
/// once in ascending order, the ref with its type and snapshot, or the schema.
pub open spec fn tells(
    catalog: Catalog,
    operation: OperationRequest,
    result: OperationResult,
) -> bool {
    match operation {
        OperationRequest::SetProperties { operation_id, .. } => {
            &&& result matches OperationResult::Properties { operation_id: id, keys } && id@
                == operation_id@ && crate::text::ascending(texts_view(keys@)) && forall|
                key: Seq<char>,
            | #[trigger]
                texts_view(keys@).contains(key) <==> own_keys(operation).contains(key)
        },
        OperationRequest::CreateRef { operation_id, name, ref_type, snapshot_id } => {
            &&& result matches OperationResult::Ref {
                operation_id: id,
                name: n,
                ref_type: t,
                snapshot_id: s,
            } && id@ == operation_id@ && n@ == name@ && t == ref_type && s == snapshot_id
        },
        OperationRequest::ReplaceRef { operation_id, name, snapshot_id } => {
            &&& result matches OperationResult::Ref {
                operation_id: id,
                name: n,
                ref_type: t,
                snapshot_id: s,
            } && id@ == operation_id@ && n@ == name@ && t == RefType::Branch && s == Some(
                snapshot_id,
            )
        },
        OperationRequest::DropRef { operation_id, name } => {
            &&& result matches OperationResult::Ref {
                operation_id: id,
                name: n,
                ref_type: t,
                snapshot_id: s,
            } && id@ == operation_id@ && n@ == name@ && forall|i: int| #[trigger]
                is_ref(catalog, i, name@) ==> t == catalog.refs@[i].ref_type && s
                    == catalog.refs@[i].snapshot_id
        },
        OperationRequest::AddSchema { operation_id, schema } => {
            &&& result matches OperationResult::Schema { operation_id: id, schema_id } && id@
                == operation_id@ && schema_id == schema.schema_id
        },
        OperationRequest::SetCurrentSchema { operation_id, schema_id } => {
            &&& result matches OperationResult::Schema { operation_id: id, schema_id: s } && id@
                == operation_id@ && s == schema_id
        },
    }
}

proof fn lemma_told(
    catalog: Catalog,
    requirements: Seq<Requirement>,
    problem: Option<ProtocolError>,
    operations: Seq<OperationRequest>,
    i: int,
    result: OperationResult,
)
    requires
        progress(catalog, requirements, problem, operations) is Ok,
        0 <= i < operations.len(),
        progress(catalog, requirements, problem, operations)->Ok_0.results.len()
            == operations.len(),
        result_is(
            result,
            progress(catalog, requirements, problem, operations)->Ok_0.results[i],
        ),
    ensures
        tells(catalog, operations[i], result),
    decreases operations.len(),
{
    let front = operations.drop_last();
    let last = operations.last();
    lemma_progress(catalog, requirements, problem, front);
    let before = progress(catalog, requirements, problem, front)->Ok_0;
    let with_id = Progress { ids: before.ids.push(own_id(last)), ..before };
    lemma_step(catalog, requirements, problem, with_id, last);
    let done = progress(catalog, requirements, problem, operations)->Ok_0;
    if i < front.len() {
        assert(done.results.drop_last()[i] == done.results[i]);
        assert(front[i] == operations[i]);
        lemma_told(catalog, requirements, problem, front, i, result);
    } else {
        match last {
            OperationRequest::SetProperties { updates, removals, .. } => {
                let keys = update_keys(updates@) + texts_view(removals@);
                assert(own_keys(last) =~= keys);
                if let OperationResult::Properties { keys: listed, .. } = result {
                    assert forall|key: Seq<char>| #[trigger]
                        texts_view(listed@).contains(key) <==> own_keys(last).contains(key) by {
                        assert(keys.to_set().contains(key) <==> keys.contains(key));
                    }
                }
            },
            OperationRequest::DropRef { name, .. } => {
                lemma_first_ref(catalog, name@);
            },
            _ => {},
        }
    }
}

/// A transaction is accepted exactly if its key may be used, it has operations, the
/// table is as every requirement asks, every operation is ready, and no two of them
/// are in each other's way. Then the result of each operation tells what it does.
pub proof fn lemma_accepted_transactions(
    catalog: Catalog,
    request: TransactionRequest,
    shown: Vec<String>,
    problem: Option<ProtocolError>,
    r: Result<Vec<OperationResult>, RuntimeError>,
)
    requires
        call_ensures(prepare_operations, (&catalog, &request, &shown, &problem), r),
        shown@.len() == request.requirements@.len(),
    ensures
        r is Ok <==> {
            &&& request.idempotency_key@ != ""@
            &&& request.idempotency_key@ != "otmp.genesis"@
            &&& request.operations@.len() > 0
            &&& forall|i: int|
                0 <= i < request.requirements@.len() ==> meets(
                    catalog,
                    #[trigger] request.requirements@[i],
                )
            &&& all_ready(catalog, request.requirements@, problem, request.operations@)
        },
        r matches Ok(results) ==> {
            &&& results@.len() == request.operations@.len()
            &&& forall|i: int|
                0 <= i < results@.len() ==> tells(
                    catalog,
                    request.operations@[i],
                    #[trigger] results@[i],
                )
        },
{
    let requirements = request.requirements@;
    reveal_strlit("");
    assert(request.idempotency_key@.len() == 0 <==> request.idempotency_key@ =~= ""@);
    lemma_evaluation(catalog, requirements, texts_view(shown@));
    assert forall|i: int| 0 <= i < requirements.len() implies (meets(
        catalog,
        #[trigger] requirements[i],
    ) <==> met(catalog, requirements[i]@)) by {
        lemma_met(catalog, requirements[i]);
    }
    assert((forall|i: int|
        0 <= i < requirements.len() ==> meets(catalog, #[trigger] requirements[i]))
        <==> crate::transactions::all_met(catalog, requirements)) by {
        if forall|i: int|
            0 <= i < requirements.len() ==> meets(catalog, #[trigger] requirements[i]) {
            assert forall|i: int| 0 <= i < requirements.len() implies met(
                catalog,
                (#[trigger] requirements[i])@,
            ) by {
                assert(meets(catalog, requirements[i]));
            }
        }
        if crate::transactions::all_met(catalog, requirements) {
            assert forall|i: int| 0 <= i < requirements.len() implies meets(
                catalog,
                #[trigger] requirements[i],
            ) by {
                assert(met(catalog, requirements[i]@));
            }
        }
    }
    lemma_progress(catalog, requirements, problem, request.operations@);
    if let Ok(results) = r {
        assert forall|i: int| 0 <= i < results@.len() implies tells(
            catalog,
            request.operations@[i],
            #[trigger] results@[i],
        ) by {
            lemma_told(catalog, requirements, problem, request.operations@, i, results@[i]);
        }
    }
}

} // verus!

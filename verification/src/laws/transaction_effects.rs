//! What a transaction makes of a table, said of its operations.
use crate::catalog::{lineage, Catalog, RefType, Walk};
use crate::error::{ErrorView, RuntimeError};
use crate::hash::Id;
use crate::laws::lineages::{leads_back, least_of, lemma_walk_finds_the_lineage};
use crate::transactions::{
    apply_operations, changes_view, effect, effects, lemma_moved_branch, operation_changes,
    planned, put_changes, remove_changes, ChangeView, OperationRequest, RowChange, TableState,
};
use crate::value::Member;
use vstd::prelude::*;

verus! {

/// The rows after the changes that were listed.
pub open spec fn after(state: TableState, changes: Vec<RowChange>) -> TableState {
    effects(state, changes_view(changes@))
}

/// The only operation of a transaction.
pub open spec fn alone(operations: Vec<OperationRequest>, operation: OperationRequest) -> bool {
    operations@ == seq![operation]
}

proof fn lemma_alone(
    catalog: Catalog,
    operations: Vec<OperationRequest>,
    operation: OperationRequest,
    version: u64,
    r: Result<Vec<RowChange>, RuntimeError>,
)
    requires
        call_ensures(apply_operations, (&catalog, &operations, version), r),
        alone(operations, operation),
        version <= i64::MAX,
    ensures
        match r {
            Ok(changes) => operation_changes(catalog, Seq::empty(), operation, version as i64)
                == Ok::<Seq<ChangeView>, ErrorView>(changes_view(changes@)),
            Err(e) => operation_changes(catalog, Seq::empty(), operation, version as i64) == Err::<
                Seq<ChangeView>,
                ErrorView,
            >(e@),
        },
{
    reveal_with_fuel(planned, 2);
    assert(operations@.drop_last() =~= Seq::<OperationRequest>::empty());
    if let Ok(more) = operation_changes(catalog, Seq::empty(), operation, version as i64) {
        assert(Seq::<ChangeView>::empty() + more =~= more);
    }
}

proof fn lemma_join(state: TableState, a: Seq<ChangeView>, b: Seq<ChangeView>)
    ensures
        effects(state, a + b) == effects(effects(state, a), b),
    decreases b.len(),
{
    if b.len() == 0 {
        assert(a + b =~= a);
    } else {
        assert((a + b).drop_last() =~= a + b.drop_last());
        lemma_join(state, a, b.drop_last());
    }
}

/// The rows but for the properties are the same.
pub open spec fn same_but_properties(a: TableState, b: TableState) -> bool {
    a == (TableState { properties: a.properties, ..b })
}

proof fn lemma_puts(state: TableState, updates: Seq<Member>, version: i64)
    requires
        forall|i: int, j: int|
            0 <= i < j < updates.len() ==> (#[trigger] updates[i]).key@ != (
            #[trigger] updates[j]).key@,
    ensures
        ({
            let end = effects(state, put_changes(updates, version));
            &&& same_but_properties(end, state)
            &&& forall|i: int|
                0 <= i < updates.len() ==> end.properties.contains_key(
                    (#[trigger] updates[i]).key@,
                ) && end.properties[updates[i].key@] == updates[i].value@
            &&& forall|key: Seq<char>|
                (forall|i: int| 0 <= i < updates.len() ==> (#[trigger] updates[i]).key@ != key)
                    ==> (#[trigger] end.properties.contains_key(key)
                    == state.properties.contains_key(key)) && (state.properties.contains_key(key)
                    ==> end.properties[key] == state.properties[key])
        }),
    decreases updates.len(),
{
    let all = put_changes(updates, version);
    if updates.len() == 0 {
        assert(all =~= Seq::<ChangeView>::empty());
    } else {
        let front = updates.drop_last();
        let last = updates.last();
        let n = updates.len() - 1;
        assert(all.drop_last() =~= put_changes(front, version));
        assert forall|i: int, j: int| 0 <= i < j < front.len() implies (#[trigger] front[i]).key@
            != (#[trigger] front[j]).key@ by {
            assert(updates[i].key@ != updates[j].key@);
        }
        lemma_puts(state, front, version);
        let mid = effects(state, put_changes(front, version));
        let end = effects(state, all);
        assert(end == effect(mid, all.last()));
        assert forall|i: int| 0 <= i < updates.len() implies end.properties.contains_key(
            (#[trigger] updates[i]).key@,
        ) && end.properties[updates[i].key@] == updates[i].value@ by {
            if i < n {
                assert(front[i] == updates[i]);
                assert(updates[i].key@ != updates[n].key@);
            }
        }
        assert forall|key: Seq<char>|
            (forall|i: int|
                0 <= i < updates.len() ==> (#[trigger] updates[i]).key@ != key) implies (
        #[trigger] end.properties.contains_key(key) == state.properties.contains_key(key)) && (
        state.properties.contains_key(key) ==> end.properties[key] == state.properties[key]) by {
            assert(updates[n].key@ != key);
            assert forall|i: int| 0 <= i < front.len() implies (#[trigger] front[i]).key@
                != key by {
                assert(updates[i].key@ != key);
            }
            assert(mid.properties.contains_key(key) == state.properties.contains_key(key));
        }
    }
}

proof fn lemma_removes(state: TableState, removals: Seq<String>)
    ensures
        ({
            let end = effects(state, remove_changes(removals));
            &&& same_but_properties(end, state)
            &&& forall|i: int|
                0 <= i < removals.len() ==> !end.properties.contains_key((#[trigger] removals[i])@)
            &&& forall|key: Seq<char>|
                (forall|i: int| 0 <= i < removals.len() ==> (#[trigger] removals[i])@ != key) ==> (
                #[trigger] end.properties.contains_key(key) == state.properties.contains_key(key))
                    && (state.properties.contains_key(key) ==> end.properties[key]
                    == state.properties[key])
        }),
    decreases removals.len(),
{
    let all = remove_changes(removals);
    if removals.len() == 0 {
        assert(all =~= Seq::<ChangeView>::empty());
    } else {
        let front = removals.drop_last();
        let n = removals.len() - 1;
        assert(all.drop_last() =~= remove_changes(front));
        lemma_removes(state, front);
        let mid = effects(state, remove_changes(front));
        let end = effects(state, all);
        assert(end == effect(mid, all.last()));
        assert forall|i: int| 0 <= i < removals.len() implies !end.properties.contains_key(
            (#[trigger] removals[i])@,
        ) by {
            if i < n {
                assert(front[i] == removals[i]);
            }
        }
        assert forall|key: Seq<char>|
            (forall|i: int| 0 <= i < removals.len() ==> (#[trigger] removals[i])@ != key) implies (
        #[trigger] end.properties.contains_key(key) == state.properties.contains_key(key)) && (
        state.properties.contains_key(key) ==> end.properties[key] == state.properties[key]) by {
            assert(removals[n]@ != key);
            assert forall|i: int| 0 <= i < front.len() implies (#[trigger] front[i])@ != key by {
                assert(removals[i]@ != key);
            }
            assert(mid.properties.contains_key(key) == state.properties.contains_key(key));
        }
    }
}

/// Setting properties stores each updated one with the value that the request
/// gives it and removes each removed one. The other properties and the rest of the
/// table stay as they were.
pub proof fn lemma_properties_are_set(
    catalog: Catalog,
    operations: Vec<OperationRequest>,
    version: u64,
    r: Result<Vec<RowChange>, RuntimeError>,
    operation_id: String,
    updates: Vec<Member>,
    removals: Vec<String>,
    state: TableState,
)
    requires
        call_ensures(apply_operations, (&catalog, &operations, version), r),
        alone(
            operations,
            (OperationRequest::SetProperties { operation_id, updates, removals }),
        ),
        version <= i64::MAX,
        forall|i: int, j: int|
            0 <= i < j < updates@.len() ==> (#[trigger] updates@[i]).key@ != (
            #[trigger] updates@[j]).key@,
        forall|i: int, j: int|
            0 <= i < updates@.len() && 0 <= j < removals@.len() ==> (#[trigger] updates@[i]).key@
                != (#[trigger] removals@[j])@,
    ensures
        r matches Ok(changes) && {
            let end = after(state, changes);
            &&& forall|i: int|
                0 <= i < updates@.len() ==> end.properties.contains_key(
                    (#[trigger] updates@[i]).key@,
                ) && end.properties[updates@[i].key@] == updates@[i].value@
            &&& forall|i: int|
                0 <= i < removals@.len() ==> !end.properties.contains_key(
                    (#[trigger] removals@[i])@,
                )
            &&& forall|key: Seq<char>|
                (forall|i: int| 0 <= i < updates@.len() ==> (#[trigger] updates@[i]).key@ != key)
                    && (forall|i: int|
                    0 <= i < removals@.len() ==> (#[trigger] removals@[i])@ != key) ==> (
                #[trigger] end.properties.contains_key(key) == state.properties.contains_key(key))
                    && (state.properties.contains_key(key) ==> end.properties[key]
                    == state.properties[key])
            &&& end.refs == state.refs
            &&& end.branches == state.branches
            &&& end.schemas == state.schemas
            &&& end.current == state.current
        },
{
    let operation = OperationRequest::SetProperties { operation_id, updates, removals };
    lemma_alone(catalog, operations, operation, version, r);
    let v = version as i64;
    let puts = put_changes(updates@, v);
    let drops = remove_changes(removals@);
    lemma_join(state, puts, drops);
    lemma_puts(state, updates@, v);
    let mid = effects(state, puts);
    lemma_removes(mid, removals@);
    let end = effects(mid, drops);
    assert forall|i: int| 0 <= i < updates@.len() implies end.properties.contains_key(
        (#[trigger] updates@[i]).key@,
    ) && end.properties[updates@[i].key@] == updates@[i].value@ by {
        let key = updates@[i].key@;
        assert forall|j: int| 0 <= j < removals@.len() implies (#[trigger] removals@[j])@
            != key by {}
        assert(end.properties.contains_key(key) == mid.properties.contains_key(key));
    }
    assert forall|key: Seq<char>|
        (forall|i: int| 0 <= i < updates@.len() ==> (#[trigger] updates@[i]).key@ != key) && (
        forall|i: int| 0 <= i < removals@.len() ==> (#[trigger] removals@[i])@ != key) implies (
    #[trigger] end.properties.contains_key(key) == state.properties.contains_key(key)) && (
    state.properties.contains_key(key) ==> end.properties[key] == state.properties[key]) by {
        assert(mid.properties.contains_key(key) == state.properties.contains_key(key));
    }
}

/// The version that a change stores, where it stores one.
pub open spec fn stored_version(change: RowChange) -> Option<i64> {
    match change {
        RowChange::PutProperty { version, .. } => Some(version),
        RowChange::InsertRef { version, .. } => Some(version),
        RowChange::MoveRef { version, .. } => Some(version),
        RowChange::InsertSchema { version, .. } => Some(version),
        _ => None,
    }
}

spec fn viewed_version(change: ChangeView) -> Option<i64> {
    match change {
        ChangeView::PutProperty(_, _, version) => Some(version),
        ChangeView::InsertRef(_, _, _, version) => Some(version),
        ChangeView::MoveRef(_, _, version) => Some(version),
        ChangeView::InsertSchema(_, _, version) => Some(version),
        _ => None,
    }
}

proof fn lemma_planned_versions(
    catalog: Catalog,
    operations: Seq<OperationRequest>,
    version: i64,
    i: int,
)
    requires
        planned(catalog, operations, version) is Ok,
        0 <= i < planned(catalog, operations, version)->Ok_0.len(),
    ensures
        viewed_version(planned(catalog, operations, version)->Ok_0[i]) matches Some(v) ==> v
            == version,
    decreases operations.len(),
{
    if operations.len() > 0 {
        let front = planned(catalog, operations.drop_last(), version)->Ok_0;
        if i < front.len() {
            lemma_planned_versions(catalog, operations.drop_last(), version, i);
        }
    }
}

/// Every row that a transaction writes carries the version of the transaction. A
/// version that cannot be stored is refused.
pub proof fn lemma_rows_carry_the_version(
    catalog: Catalog,
    operations: Vec<OperationRequest>,
    version: u64,
    r: Result<Vec<RowChange>, RuntimeError>,
)
    requires
        call_ensures(apply_operations, (&catalog, &operations, version), r),
    ensures
        r matches Ok(changes) ==> version <= i64::MAX && forall|i: int|
            0 <= i < changes@.len() ==> (stored_version(#[trigger] changes@[i]) matches Some(v)
                ==> v == version),
{
    if let Ok(changes) = r {
        assert forall|i: int| 0 <= i < changes@.len() implies (stored_version(
            #[trigger] changes@[i],
        ) matches Some(v) ==> v == version) by {
            assert(changes_view(changes@)[i] == changes@[i]@);
            lemma_planned_versions(catalog, operations@, version as i64, i);
        }
    }
}

/// A tag that is created names its snapshot. No file is live on it, and nothing
/// else changes.
pub proof fn lemma_tag_is_created(
    catalog: Catalog,
    operations: Vec<OperationRequest>,
    version: u64,
    r: Result<Vec<RowChange>, RuntimeError>,
    operation_id: String,
    name: String,
    snapshot_id: Option<Id>,
    state: TableState,
)
    requires
        call_ensures(apply_operations, (&catalog, &operations, version), r),
        alone(
            operations,
            (OperationRequest::CreateRef {
                operation_id,
                name,
                ref_type: RefType::Tag,
                snapshot_id,
            }),
        ),
        version <= i64::MAX,
    ensures
        r matches Ok(changes) && after(state, changes) == (TableState {
            refs: state.refs.insert(name@, (RefType::Tag, snapshot_id)),
            ..state
        }),
{
    let operation = OperationRequest::CreateRef {
        operation_id,
        name,
        ref_type: RefType::Tag,
        snapshot_id,
    };
    lemma_alone(catalog, operations, operation, version, r);
    reveal_with_fuel(effects, 2);
    let changes = r->Ok_0;
    assert(changes_view(changes@).drop_last() =~= Seq::<ChangeView>::empty());
}

/// A branch that is created names its snapshot, and the files that are live on it are
/// those of the snapshots that lead back from it. It can be created where they do, and
/// only there.
pub proof fn lemma_branch_is_created(
    catalog: Catalog,
    operations: Vec<OperationRequest>,
    version: u64,
    r: Result<Vec<RowChange>, RuntimeError>,
    operation_id: String,
    name: String,
    snapshot_id: Option<Id>,
    state: TableState,
    chain: Seq<Id>,
    places: Seq<int>,
)
    requires
        call_ensures(apply_operations, (&catalog, &operations, version), r),
        alone(
            operations,
            (OperationRequest::CreateRef {
                operation_id,
                name,
                ref_type: RefType::Branch,
                snapshot_id,
            }),
        ),
        version <= i64::MAX,
    ensures
        leads_back(catalog.snapshots@, snapshot_id, chain, places, 1) ==> (r matches Ok(changes)
            && after(state, changes) == (TableState {
            refs: state.refs.insert(name@, (RefType::Branch, snapshot_id)),
            branches: state.branches.insert(name@, chain.to_set()),
            ..state
        })),
        r is Ok ==> exists|back: Seq<Id>, at: Seq<int>| #[trigger]
            leads_back(catalog.snapshots@, snapshot_id, back, at, 1),
{
    let operation = OperationRequest::CreateRef {
                operation_id,
                name,
                ref_type: RefType::Branch,
                snapshot_id,
            };
    lemma_alone(catalog, operations, operation, version, r);
    assert(least_of(Walk::Branch) == 1);
    lemma_walk_finds_the_lineage(Walk::Branch, catalog.snapshots@, snapshot_id);
    if operation_changes(catalog, Seq::empty(), operation, version as i64) is Ok {
        lemma_moved_branch(
            catalog,
            Seq::empty(),
            operation,
            version as i64,
            state,
            name@,
            snapshot_id,
        );
        let found = lineage(Walk::Branch, catalog.snapshots@, snapshot_id, Seq::empty(), u64::MAX as int);
        let at = choose|at: Seq<int>| #[trigger]
            leads_back(catalog.snapshots@, snapshot_id, found->Ok_0, at, 1);
        assert(leads_back(catalog.snapshots@, snapshot_id, found->Ok_0, at, 1));
    }
}

/// A branch that is moved names the new snapshot, and the files that are live on it are
/// those of the snapshots that lead back from it. It can be moved where they do, and
/// only there.
pub proof fn lemma_branch_is_moved(
    catalog: Catalog,
    operations: Vec<OperationRequest>,
    version: u64,
    r: Result<Vec<RowChange>, RuntimeError>,
    operation_id: String,
    name: String,
    snapshot_id: Id,
    state: TableState,
    chain: Seq<Id>,
    places: Seq<int>,
)
    requires
        call_ensures(apply_operations, (&catalog, &operations, version), r),
        alone(
            operations,
            (OperationRequest::ReplaceRef { operation_id, name, snapshot_id }),
        ),
        version <= i64::MAX,
        state.refs.contains_key(name@),
        state.refs[name@].0 is Branch,
    ensures
        leads_back(catalog.snapshots@, Some(snapshot_id), chain, places, 1) ==> (r matches Ok(changes)
            && after(state, changes) == (TableState {
            refs: state.refs.insert(name@, (RefType::Branch, Some(snapshot_id))),
            branches: state.branches.insert(name@, chain.to_set()),
            ..state
        })),
        r is Ok ==> exists|back: Seq<Id>, at: Seq<int>| #[trigger]
            leads_back(catalog.snapshots@, Some(snapshot_id), back, at, 1),
{
    let operation = OperationRequest::ReplaceRef { operation_id, name, snapshot_id };
    lemma_alone(catalog, operations, operation, version, r);
    assert(least_of(Walk::Branch) == 1);
    lemma_walk_finds_the_lineage(Walk::Branch, catalog.snapshots@, Some(snapshot_id));
    if operation_changes(catalog, Seq::empty(), operation, version as i64) is Ok {
        lemma_moved_branch(
            catalog,
            Seq::empty(),
            operation,
            version as i64,
            state,
            name@,
            Some(snapshot_id),
        );
        let found = lineage(Walk::Branch, catalog.snapshots@, Some(snapshot_id), Seq::empty(), u64::MAX as int);
        let at = choose|at: Seq<int>| #[trigger]
            leads_back(catalog.snapshots@, Some(snapshot_id), found->Ok_0, at, 1);
        assert(leads_back(catalog.snapshots@, Some(snapshot_id), found->Ok_0, at, 1));
    }
}

/// A ref that is dropped is gone, no file is live on it, and nothing else changes.
pub proof fn lemma_ref_is_dropped(
    catalog: Catalog,
    operations: Vec<OperationRequest>,
    version: u64,
    r: Result<Vec<RowChange>, RuntimeError>,
    operation_id: String,
    name: String,
    state: TableState,
)
    requires
        call_ensures(apply_operations, (&catalog, &operations, version), r),
        alone(operations, (OperationRequest::DropRef { operation_id, name })),
        version <= i64::MAX,
    ensures
        r matches Ok(changes) && after(state, changes) == (TableState {
            refs: state.refs.remove(name@),
            branches: state.branches.insert(name@, Set::empty()),
            ..state
        }),
{
    let operation = OperationRequest::DropRef { operation_id, name };
    lemma_alone(catalog, operations, operation, version, r);
    reveal_with_fuel(effects, 3);
    let all = changes_view(r->Ok_0@);
    assert(all.drop_last() =~= seq![all[0]]);
    assert(all.drop_last().drop_last() =~= Seq::<ChangeView>::empty());
}

/// A schema that is added is there afterwards, taken from the operation that adds
/// it. The current one and the rest of the table stay.
pub proof fn lemma_schema_is_added(
    catalog: Catalog,
    operations: Vec<OperationRequest>,
    version: u64,
    r: Result<Vec<RowChange>, RuntimeError>,
    operation_id: String,
    schema: crate::schema::Schema,
    state: TableState,
)
    requires
        call_ensures(apply_operations, (&catalog, &operations, version), r),
        alone(operations, (OperationRequest::AddSchema { operation_id, schema })),
        version <= i64::MAX,
    ensures
        r matches Ok(changes) && after(state, changes) == (TableState {
            schemas: state.schemas.insert(schema.schema_id),
            ..state
        }) && changes@.len() == 1 && (changes@[0] matches RowChange::InsertSchema {
            operation,
            schema_id,
            ..
        } && operation == 0 && schema_id == schema.schema_id),
{
    let operation = OperationRequest::AddSchema { operation_id, schema };
    lemma_alone(catalog, operations, operation, version, r);
    reveal_with_fuel(effects, 2);
    let all = changes_view(r->Ok_0@);
    assert(all.drop_last() =~= Seq::<ChangeView>::empty());
    assert(all[0] == r->Ok_0@[0]@);
}

/// A schema that is selected is the current one afterwards, and nothing else
/// changes. Only a schema that the table has can be selected alone.
pub proof fn lemma_schema_is_selected(
    catalog: Catalog,
    operations: Vec<OperationRequest>,
    version: u64,
    r: Result<Vec<RowChange>, RuntimeError>,
    operation_id: String,
    schema_id: u32,
    state: TableState,
)
    requires
        call_ensures(apply_operations, (&catalog, &operations, version), r),
        alone(operations, (OperationRequest::SetCurrentSchema { operation_id, schema_id })),
        version <= i64::MAX,
    ensures
        r is Ok <==> exists|i: int|
            0 <= i < catalog.schema_ids@.len() && catalog.schema_ids@[i] == schema_id,
        r matches Ok(changes) ==> after(state, changes) == (TableState {
            current: schema_id,
            ..state
        }),
        r matches Err(e) ==> e@ is InvalidTransaction,
{
    let operation = OperationRequest::SetCurrentSchema { operation_id, schema_id };
    lemma_alone(catalog, operations, operation, version, r);
    reveal_with_fuel(effects, 2);
    if let Ok(changes) = r {
        let all = changes_view(changes@);
        assert(all.drop_last() =~= Seq::<ChangeView>::empty());
    }
}

/// The operation depends on those before it in its transaction.
pub open spec fn looks_back(operation: OperationRequest) -> bool {
    operation is AddSchema || operation is SetCurrentSchema
}

/// Operations take effect one after the other, each as if it stood alone. What
/// makes a transaction fail is one of its operations.
pub proof fn lemma_operations_follow_each_other(
    catalog: Catalog,
    operations: Vec<OperationRequest>,
    r: Result<Vec<RowChange>, RuntimeError>,
    front: Vec<OperationRequest>,
    before: Result<Vec<RowChange>, RuntimeError>,
    last: Vec<OperationRequest>,
    own: Result<Vec<RowChange>, RuntimeError>,
    version: u64,
    state: TableState,
)
    requires
        call_ensures(apply_operations, (&catalog, &operations, version), r),
        call_ensures(apply_operations, (&catalog, &front, version), before),
        call_ensures(apply_operations, (&catalog, &last, version), own),
        last@.len() == 1,
        operations@ == front@ + last@,
        !looks_back(last@[0]),
        version <= i64::MAX,
    ensures
        r is Ok <==> before is Ok && own is Ok,
        r is Ok ==> after(state, r->Ok_0) == after(after(state, before->Ok_0), own->Ok_0),
{
    lemma_alone(catalog, last, last@[0], version, own);
    assert(last@ =~= seq![last@[0]]);
    assert(operations@.drop_last() =~= front@);
    assert(operations@.last() == last@[0]);
    if r is Ok {
        let a = changes_view(before->Ok_0@);
        let b = changes_view(own->Ok_0@);
        assert(changes_view(r->Ok_0@) =~= a + b);
        lemma_join(state, a, b);
    }
}

/// A schema can be selected in a transaction if the table has it or an operation
/// before adds it, and is current afterwards.
pub proof fn lemma_added_schema_can_be_selected(
    catalog: Catalog,
    operations: Vec<OperationRequest>,
    r: Result<Vec<RowChange>, RuntimeError>,
    front: Vec<OperationRequest>,
    before: Result<Vec<RowChange>, RuntimeError>,
    operation_id: String,
    schema_id: u32,
    version: u64,
    state: TableState,
)
    requires
        call_ensures(apply_operations, (&catalog, &operations, version), r),
        call_ensures(apply_operations, (&catalog, &front, version), before),
        operations@ == front@.push(
            (OperationRequest::SetCurrentSchema { operation_id, schema_id }),
        ),
        version <= i64::MAX,
    ensures
        r is Ok <==> before is Ok && ((exists|i: int|
            0 <= i < catalog.schema_ids@.len() && catalog.schema_ids@[i] == schema_id) || exists|
            i: int,
        |
            0 <= i < front@.len() && (#[trigger] front@[i] matches OperationRequest::AddSchema {
                schema,
                ..
            } && schema.schema_id == schema_id)),
        r is Ok ==> after(state, r->Ok_0) == (TableState {
            current: schema_id,
            ..after(state, before->Ok_0)
        }),
{
    let operation = OperationRequest::SetCurrentSchema { operation_id, schema_id };
    assert(operations@.drop_last() =~= front@);
    if r is Ok {
        let a = changes_view(before->Ok_0@);
        let b = seq![ChangeView::SetCurrentSchema(schema_id)];
        assert(changes_view(r->Ok_0@) =~= a + b);
        lemma_join(state, a, b);
        reveal_with_fuel(effects, 2);
        assert(b.drop_last() =~= Seq::<ChangeView>::empty());
    }
}

/// A schema that is added behind other operations is added too, and the change
/// names the operation that adds it by its place.
pub proof fn lemma_schema_is_added_behind(
    catalog: Catalog,
    operations: Vec<OperationRequest>,
    r: Result<Vec<RowChange>, RuntimeError>,
    front: Vec<OperationRequest>,
    before: Result<Vec<RowChange>, RuntimeError>,
    operation_id: String,
    schema: crate::schema::Schema,
    version: u64,
    state: TableState,
)
    requires
        call_ensures(apply_operations, (&catalog, &operations, version), r),
        call_ensures(apply_operations, (&catalog, &front, version), before),
        operations@ == front@.push((OperationRequest::AddSchema { operation_id, schema })),
        version <= i64::MAX,
    ensures
        r is Ok <==> before is Ok,
        r matches Ok(changes) ==> changes@.len() > 0 && (changes@.last()
            matches RowChange::InsertSchema { operation, schema_id, .. } && operation
            == front@.len() && schema_id == schema.schema_id),
        r is Ok ==> after(state, r->Ok_0) == (TableState {
            schemas: after(state, before->Ok_0).schemas.insert(schema.schema_id),
            ..after(state, before->Ok_0)
        }),
{
    let operation = OperationRequest::AddSchema { operation_id, schema };
    assert(operations@.drop_last() =~= front@);
    if r is Ok {
        let a = changes_view(before->Ok_0@);
        let all = changes_view(r->Ok_0@);
        let b = seq![
            ChangeView::InsertSchema(front@.len() as int, schema.schema_id, version as i64),
        ];
        assert(all =~= a + b);
        assert(all.last() == r->Ok_0@.last()@);
        lemma_join(state, a, b);
        reveal_with_fuel(effects, 2);
        assert(b.drop_last() =~= Seq::<ChangeView>::empty());
    }
}

} // verus!

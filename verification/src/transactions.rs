//! Transactions on table metadata: requirements, operations, and the rows that
//! they change.
use crate::catalog::{
    ancestry, holds_number, lineage, property_of, property_row, ref_of, ref_row, snapshot_of,
    snapshot_row, Catalog, RefType, Walk,
};
use crate::error::{ErrorView, ProtocolError, RuntimeError};
use crate::hash::{Id, Sha256};
use crate::schema::{
    additive_schema, invalid, same_numbers, schema_additions, Schema,
};
use crate::text::{
    ascending, begins, begins_with, has_no_control, holds_text, insert_text, joined, reads,
    texts_view, without_control,
};
use crate::value::{copy_value, same_value, CanonicalValue, Member, ValueView};
use vstd::prelude::*;
use vstd::string::*;

verus! {

/// What must hold of the table for a transaction to apply.
#[derive(Debug)]
pub enum Requirement {
    PropertyIs { key: String, value: CanonicalValue },
    RefAbsent { name: String },
    RefExists { name: String, ref_type: RefType },
    RefSnapshotIs { name: String, snapshot_id: Option<Id> },
    SnapshotExists { snapshot_id: Id },
    CurrentSchemaIs { schema_id: u32 },
    SchemaIdAbsent { schema_id: u32 },
    FieldIdsAbsent { field_ids: Vec<u32> },
    DefaultPartitionSpecIs { partition_spec_id: u32 },
    DefaultSortOrderIs { sort_order_id: u32 },
}

pub enum RequirementView {
    PropertyIs(Seq<char>, ValueView),
    RefAbsent(Seq<char>),
    RefExists(Seq<char>, RefType),
    RefSnapshotIs(Seq<char>, Option<Id>),
    SnapshotExists(Id),
    CurrentSchemaIs(u32),
    SchemaIdAbsent(u32),
    FieldIdsAbsent(Seq<u32>),
    DefaultPartitionSpecIs(u32),
    DefaultSortOrderIs(u32),
}

impl View for Requirement {
    type V = RequirementView;

    open spec fn view(&self) -> RequirementView {
        match *self {
            Requirement::PropertyIs { key, value } => RequirementView::PropertyIs(key@, value@),
            Requirement::RefAbsent { name } => RequirementView::RefAbsent(name@),
            Requirement::RefExists { name, ref_type } => RequirementView::RefExists(name@, ref_type),
            Requirement::RefSnapshotIs { name, snapshot_id } => RequirementView::RefSnapshotIs(
                name@,
                snapshot_id,
            ),
            Requirement::SnapshotExists { snapshot_id } => RequirementView::SnapshotExists(
                snapshot_id,
            ),
            Requirement::CurrentSchemaIs { schema_id } => RequirementView::CurrentSchemaIs(
                schema_id,
            ),
            Requirement::SchemaIdAbsent { schema_id } => RequirementView::SchemaIdAbsent(schema_id),
            Requirement::FieldIdsAbsent { field_ids } => RequirementView::FieldIdsAbsent(field_ids@),
            Requirement::DefaultPartitionSpecIs { partition_spec_id } =>
                RequirementView::DefaultPartitionSpecIs(partition_spec_id),
            Requirement::DefaultSortOrderIs { sort_order_id } =>
                RequirementView::DefaultSortOrderIs(sort_order_id),
        }
    }
}

#[derive(Debug)]
pub enum OperationRequest {
    SetProperties { operation_id: String, updates: Vec<Member>, removals: Vec<String> },
    CreateRef { operation_id: String, name: String, ref_type: RefType, snapshot_id: Option<Id> },
    ReplaceRef { operation_id: String, name: String, snapshot_id: Id },
    DropRef { operation_id: String, name: String },
    AddSchema { operation_id: String, schema: Schema },
    SetCurrentSchema { operation_id: String, schema_id: u32 },
}

impl OperationRequest {
    pub open spec fn spec_id(&self) -> Seq<char> {
        match *self {
            OperationRequest::SetProperties { operation_id, .. } => operation_id@,
            OperationRequest::CreateRef { operation_id, .. } => operation_id@,
            OperationRequest::ReplaceRef { operation_id, .. } => operation_id@,
            OperationRequest::DropRef { operation_id, .. } => operation_id@,
            OperationRequest::AddSchema { operation_id, .. } => operation_id@,
            OperationRequest::SetCurrentSchema { operation_id, .. } => operation_id@,
        }
    }

    pub fn id(&self) -> (id: &String)
        ensures
            id@ == self.spec_id(),
    {
        match self {
            OperationRequest::SetProperties { operation_id, .. } => operation_id,
            OperationRequest::CreateRef { operation_id, .. } => operation_id,
            OperationRequest::ReplaceRef { operation_id, .. } => operation_id,
            OperationRequest::DropRef { operation_id, .. } => operation_id,
            OperationRequest::AddSchema { operation_id, .. } => operation_id,
            OperationRequest::SetCurrentSchema { operation_id, .. } => operation_id,
        }
    }
}

/// The identities of operations, in their order.
pub open spec fn operation_ids(operations: Seq<OperationRequest>) -> Seq<Seq<char>> {
    Seq::new(operations.len(), |i: int| operations[i].spec_id())
}

#[derive(Debug)]
pub struct TransactionRequest {
    pub idempotency_key: String,
    pub requirements: Vec<Requirement>,
    pub operations: Vec<OperationRequest>,
    pub commit_metadata: Vec<Member>,
}

#[derive(Debug)]
pub enum OperationResult {
    Properties { operation_id: String, keys: Vec<String> },
    Ref { operation_id: String, name: String, ref_type: RefType, snapshot_id: Option<Id> },
    Schema { operation_id: String, schema_id: u32 },
}

#[derive(Debug)]
pub struct TransactionResult {
    pub table_version: u64,
    pub commit_id: Id,
    pub semantic_state_sha256: Sha256,
    pub operation_results: Vec<OperationResult>,
}

/// What is stored of a result, and read back when a request comes again.
#[derive(Debug)]
pub struct DurableResult {
    pub table_version: u64,
    pub commit_id: Id,
    pub operation_results: Vec<OperationResult>,
}

impl DurableResult {
    /// The result as the caller sees it.
    pub fn with_state(self, semantic_state_sha256: Sha256) -> (result: TransactionResult)
        ensures
            result.table_version == self.table_version,
            result.commit_id == self.commit_id,
            result.semantic_state_sha256 == semantic_state_sha256,
            result.operation_results == self.operation_results,
    {
        TransactionResult {
            table_version: self.table_version,
            commit_id: self.commit_id,
            semantic_state_sha256,
            operation_results: self.operation_results,
        }
    }
}

/// The result of one operation, its property keys taken as a set.
pub enum ResultView {
    Properties(Seq<char>, Set<Seq<char>>),
    Ref(Seq<char>, Seq<char>, RefType, Option<Id>),
    Schema(Seq<char>, u32),
}

/// Whether a result is the planned one. Property keys are listed in ascending
/// order.
pub open spec fn result_is(result: OperationResult, plan: ResultView) -> bool {
    match result {
        OperationResult::Properties { operation_id, keys } => {
            &&& plan matches ResultView::Properties(id, planned)
            &&& operation_id@ == id
            &&& ascending(texts_view(keys@))
            &&& forall|key: Seq<char>| #[trigger]
                texts_view(keys@).contains(key) <==> planned.contains(key)
        },
        OperationResult::Ref { operation_id, name, ref_type, snapshot_id } => plan
            == ResultView::Ref(operation_id@, name@, ref_type, snapshot_id),
        OperationResult::Schema { operation_id, schema_id } => plan == ResultView::Schema(
            operation_id@,
            schema_id,
        ),
    }
}

pub open spec fn results_are(results: Seq<OperationResult>, plan: Seq<ResultView>) -> bool {
    &&& results.len() == plan.len()
    &&& forall|i: int| 0 <= i < plan.len() ==> result_is(#[trigger] results[i], plan[i])
}

fn same_snapshot(a: &Option<Id>, b: &Option<Id>) -> (same: bool)
    ensures
        same == (*a == *b),
{
    match (a, b) {
        (Some(a), Some(b)) => *a == *b,
        (None, None) => true,
        _ => false,
    }
}

pub fn same_requirement(a: &Requirement, b: &Requirement) -> (same: bool)
    ensures
        same == (a@ == b@),
{
    match (a, b) {
        (
            Requirement::PropertyIs { key, value },
            Requirement::PropertyIs { key: other, value: rhs },
        ) => *key == *other && same_value(value, rhs),
        (Requirement::RefAbsent { name }, Requirement::RefAbsent { name: other }) => *name == *other,
        (
            Requirement::RefExists { name, ref_type },
            Requirement::RefExists { name: other, ref_type: kind },
        ) => *name == *other && *ref_type == *kind,
        (
            Requirement::RefSnapshotIs { name, snapshot_id },
            Requirement::RefSnapshotIs { name: other, snapshot_id: id },
        ) => *name == *other && same_snapshot(snapshot_id, id),
        (
            Requirement::SnapshotExists { snapshot_id },
            Requirement::SnapshotExists { snapshot_id: id },
        ) => *snapshot_id == *id,
        (
            Requirement::CurrentSchemaIs { schema_id },
            Requirement::CurrentSchemaIs { schema_id: id },
        ) => *schema_id == *id,
        (
            Requirement::SchemaIdAbsent { schema_id },
            Requirement::SchemaIdAbsent { schema_id: id },
        ) => *schema_id == *id,
        (
            Requirement::FieldIdsAbsent { field_ids },
            Requirement::FieldIdsAbsent { field_ids: ids },
        ) => same_numbers(field_ids, ids),
        (
            Requirement::DefaultPartitionSpecIs { partition_spec_id },
            Requirement::DefaultPartitionSpecIs { partition_spec_id: id },
        ) => *partition_spec_id == *id,
        (
            Requirement::DefaultSortOrderIs { sort_order_id },
            Requirement::DefaultSortOrderIs { sort_order_id: id },
        ) => *sort_order_id == *id,
        _ => false,
    }
}

/// How often a requirement is listed.
pub open spec fn times(requirements: Seq<Requirement>, wanted: RequirementView) -> nat
    decreases requirements.len(),
{
    if requirements.len() == 0 {
        0
    } else {
        times(requirements.drop_last(), wanted) + (if requirements.last()@ == wanted {
            1nat
        } else {
            0nat
        })
    }
}

pub open spec fn required_error() -> ErrorView {
    ErrorView::InvalidTransaction("operation requires exactly one matching precondition"@)
}

/// Checks that a requirement is listed exactly once.
pub fn required(requirements: &Vec<Requirement>, wanted: &Requirement) -> (r: Result<
    (),
    RuntimeError,
>)
    ensures
        match r {
            Ok(()) => times(requirements@, wanted@) == 1,
            Err(e) => times(requirements@, wanted@) != 1 && e@ == required_error(),
        },
{
    let mut count: usize = 0;
    let mut i: usize = 0;
    assert(requirements@.take(0) =~= Seq::<Requirement>::empty());
    while i < requirements.len()
        invariant
            i <= requirements@.len(),
            count <= i,
            count == times(requirements@.take(i as int), wanted@),
        decreases requirements@.len() - i,
    {
        assert(requirements@.take(i + 1).drop_last() =~= requirements@.take(i as int));
        if same_requirement(&requirements[i], wanted) {
            count = count + 1;
        }
        i = i + 1;
    }
    assert(requirements@.take(i as int) =~= requirements@);
    if count != 1 {
        return Err(invalid("operation requires exactly one matching precondition"));
    }
    Ok(())
}

/// Whether the table meets a requirement. A property that is not set counts as
/// null.
pub open spec fn met(catalog: Catalog, requirement: RequirementView) -> bool {
    match requirement {
        RequirementView::PropertyIs(key, value) => match property_of(catalog.properties@, key) {
            None => value is Null,
            Some(actual) => actual == value,
        },
        RequirementView::RefAbsent(name) => ref_of(catalog.refs@, name) is None,
        RequirementView::RefExists(name, ref_type) => ref_of(catalog.refs@, name) matches Some(row)
            && row.0 == ref_type,
        RequirementView::RefSnapshotIs(name, id) => ref_of(catalog.refs@, name) matches Some(row)
            && row.1 == id,
        RequirementView::SnapshotExists(id) => snapshot_of(catalog.snapshots@, id) is Some,
        RequirementView::CurrentSchemaIs(id) => catalog.current_schema.schema_id == id,
        RequirementView::SchemaIdAbsent(id) => !catalog.schema_ids@.contains(id),
        RequirementView::FieldIdsAbsent(ids) => {
            &&& ids.no_duplicates()
            &&& forall|i: int|
                0 <= i < ids.len() ==> #[trigger] ids[i] != 0 && !catalog.field_ids@.contains(
                    ids[i],
                )
        },
        RequirementView::DefaultPartitionSpecIs(id) => catalog.default_partition_spec_id == id,
        RequirementView::DefaultSortOrderIs(id) => catalog.default_sort_order_id == id,
    }
}

pub open spec fn unmet_error(requirement: RequirementView, shown: Seq<char>) -> ErrorView {
    if requirement is FieldIdsAbsent {
        ErrorView::SemanticConflict("field ID already exists or is invalid"@)
    } else {
        ErrorView::SemanticConflict("requirement failed: "@ + shown)
    }
}

/// The first requirement that is not met decides. `shown` is how each of them
/// shows itself in a message.
pub open spec fn evaluation(
    catalog: Catalog,
    requirements: Seq<Requirement>,
    shown: Seq<Seq<char>>,
) -> Result<(), ErrorView>
    decreases requirements.len(),
{
    if requirements.len() == 0 {
        Ok(())
    } else if !met(catalog, requirements[0]@) {
        Err(unmet_error(requirements[0]@, shown[0]))
    } else {
        evaluation(catalog, requirements.skip(1), shown.skip(1))
    }
}

pub fn distinct_numbers(numbers: &Vec<u32>) -> (distinct: bool)
    ensures
        distinct == numbers@.no_duplicates(),
{
    let mut i: usize = 0;
    while i < numbers.len()
        invariant
            i <= numbers@.len(),
            forall|a: int, b: int|
                #![trigger numbers@[a], numbers@[b]]
                0 <= a < b < numbers@.len() && a < i ==> numbers@[a] != numbers@[b],
        decreases numbers@.len() - i,
    {
        let mut j: usize = i + 1;
        while j < numbers.len()
            invariant
                i < j <= numbers@.len(),
                forall|b: int| i < b < j ==> #[trigger] numbers@[b] != numbers@[i as int],
            decreases numbers@.len() - j,
        {
            if numbers[i] == numbers[j] {
                return false;
            }
            j = j + 1;
        }
        i = i + 1;
    }
    true
}

fn fields_absent(catalog: &Catalog, ids: &Vec<u32>) -> (absent: bool)
    ensures
        absent == met(*catalog, RequirementView::FieldIdsAbsent(ids@)),
{
    if !distinct_numbers(ids) {
        return false;
    }
    let mut i: usize = 0;
    while i < ids.len()
        invariant
            i <= ids@.len(),
            forall|k: int|
                0 <= k < i ==> #[trigger] ids@[k] != 0 && !catalog.field_ids@.contains(ids@[k]),
        decreases ids@.len() - i,
    {
        if ids[i] == 0 || holds_number(&catalog.field_ids, ids[i]) {
            return false;
        }
        i = i + 1;
    }
    true
}

fn is_met(catalog: &Catalog, requirement: &Requirement) -> (matched: bool)
    ensures
        matched == met(*catalog, requirement@),
{
    match requirement {
        Requirement::PropertyIs { key, value } => match property_row(&catalog.properties, key) {
            None => match value {
                CanonicalValue::Null => true,
                _ => false,
            },
            Some(actual) => same_value(actual, value),
        },
        Requirement::RefAbsent { name } => ref_row(&catalog.refs, name).is_none(),
        Requirement::RefExists { name, ref_type } => match ref_row(&catalog.refs, name) {
            Some(row) => row.0 == *ref_type,
            None => false,
        },
        Requirement::RefSnapshotIs { name, snapshot_id } => match ref_row(&catalog.refs, name) {
            Some(row) => same_snapshot(&row.1, snapshot_id),
            None => false,
        },
        Requirement::SnapshotExists { snapshot_id } => snapshot_row(
            &catalog.snapshots,
            snapshot_id,
        ).is_some(),
        Requirement::CurrentSchemaIs { schema_id } => catalog.current_schema.schema_id == *schema_id,
        Requirement::SchemaIdAbsent { schema_id } => !holds_number(&catalog.schema_ids, *schema_id),
        Requirement::FieldIdsAbsent { field_ids } => fields_absent(catalog, field_ids),
        Requirement::DefaultPartitionSpecIs { partition_spec_id } =>
            catalog.default_partition_spec_id == *partition_spec_id,
        Requirement::DefaultSortOrderIs { sort_order_id } => catalog.default_sort_order_id
            == *sort_order_id,
    }
}

/// Checks every requirement against the table.
pub fn evaluate(catalog: &Catalog, requirements: &Vec<Requirement>, shown: &Vec<String>) -> (r:
    Result<(), RuntimeError>)
    requires
        shown@.len() == requirements@.len(),
    ensures
        match r {
            Ok(()) => evaluation(*catalog, requirements@, texts_view(shown@)) is Ok,
            Err(e) => evaluation(*catalog, requirements@, texts_view(shown@)) == Err::<
                (),
                ErrorView,
            >(e@),
        },
{
    let ghost texts = texts_view(shown@);
    assert(requirements@.skip(0) =~= requirements@);
    assert(texts.skip(0) =~= texts);
    let mut i: usize = 0;
    while i < requirements.len()
        invariant
            i <= requirements@.len(),
            shown@.len() == requirements@.len(),
            texts == texts_view(shown@),
            evaluation(*catalog, requirements@, texts) == evaluation(
                *catalog,
                requirements@.skip(i as int),
                texts.skip(i as int),
            ),
        decreases requirements@.len() - i,
    {
        assert(requirements@.skip(i as int).skip(1) =~= requirements@.skip(i + 1));
        assert(texts.skip(i as int).skip(1) =~= texts.skip(i + 1));
        assert(texts.skip(i as int)[0] == shown@[i as int]@);
        if !is_met(catalog, &requirements[i]) {
            let conflict = match &requirements[i] {
                Requirement::FieldIdsAbsent { .. } => "field ID already exists or is invalid".to_owned(),
                _ => joined("requirement failed: ", shown[i].as_str()),
            };
            return Err(RuntimeError::SemanticConflict(conflict));
        }
        i = i + 1;
    }
    Ok(())
}

pub open spec fn all_met(catalog: Catalog, requirements: Seq<Requirement>) -> bool {
    forall|i: int| 0 <= i < requirements.len() ==> met(catalog, (#[trigger] requirements[i])@)
}

/// Requirements are accepted exactly when the table meets each of them.
pub proof fn lemma_evaluation(
    catalog: Catalog,
    requirements: Seq<Requirement>,
    shown: Seq<Seq<char>>,
)
    ensures
        evaluation(catalog, requirements, shown) is Ok <==> all_met(catalog, requirements),
    decreases requirements.len(),
{
    if requirements.len() > 0 {
        let rest = requirements.skip(1);
        lemma_evaluation(catalog, rest, shown.skip(1));
        assert forall|i: int| 0 <= i < rest.len() implies rest[i] == #[trigger] requirements[i + 1] by {}
        if evaluation(catalog, requirements, shown) is Ok {
            assert forall|i: int| 0 <= i < requirements.len() implies met(
                catalog,
                (#[trigger] requirements[i])@,
            ) by {
                if i > 0 {
                    assert(rest[i - 1] == requirements[i]);
                }
            }
        }
        if forall|i: int|
            0 <= i < requirements.len() ==> met(catalog, (#[trigger] requirements[i])@) {
            assert forall|i: int| 0 <= i < rest.len() implies met(catalog, (#[trigger] rest[i])@) by {
                assert(rest[i] == requirements[i + 1]);
            }
            assert(met(catalog, requirements[0]@));
        }
    }
}

/// What the operations so far have claimed.
pub struct Progress {
    pub ids: Seq<Seq<char>>,
    pub keys: Seq<Seq<char>>,
    pub refs: Seq<Seq<char>>,
    pub added_schema: bool,
    pub set_schema: bool,
    pub results: Seq<ResultView>,
}

pub open spec fn no_progress() -> Progress {
    Progress {
        ids: Seq::empty(),
        keys: Seq::empty(),
        refs: Seq::empty(),
        added_schema: false,
        set_schema: false,
        results: Seq::empty(),
    }
}

/// How many requirements speak of a property.
pub open spec fn property_times(requirements: Seq<Requirement>, key: Seq<char>) -> nat
    decreases requirements.len(),
{
    if requirements.len() == 0 {
        0
    } else {
        property_times(requirements.drop_last(), key) + (if requirements.last()@
            matches RequirementView::PropertyIs(k, _) && k == key {
            1nat
        } else {
            0nat
        })
    }
}

pub open spec fn update_keys(updates: Seq<Member>) -> Seq<Seq<char>> {
    Seq::new(updates.len(), |i: int| updates[i].key@)
}

/// The keys claimed after those of one operation; or why one cannot be claimed.
pub open spec fn claim_keys(
    requirements: Seq<Requirement>,
    claimed: Seq<Seq<char>>,
    keys: Seq<Seq<char>>,
) -> Result<Seq<Seq<char>>, ErrorView>
    decreases keys.len(),
{
    if keys.len() == 0 {
        Ok(claimed)
    } else {
        match claim_keys(requirements, claimed, keys.drop_last()) {
            Err(e) => Err(e),
            Ok(before) => {
                let key = keys.last();
                if key.len() == 0 || begins(key, "otmp."@) || before.contains(key) {
                    Err(
                        ErrorView::InvalidTransaction(
                            "reserved, empty, overlapping, or repeated property key"@,
                        ),
                    )
                } else if property_times(requirements, key) != 1 {
                    Err(
                        ErrorView::InvalidTransaction(
                            "each property key requires exactly one property_is"@,
                        ),
                    )
                } else {
                    Ok(before.push(key))
                }
            },
        }
    }
}

/// The refs claimed after one more.
pub open spec fn claim_ref(claimed: Seq<Seq<char>>, name: Seq<char>) -> Result<
    Seq<Seq<char>>,
    ErrorView,
> {
    if name.len() == 0 || !without_control(name) || claimed.contains(name) {
        Err(ErrorView::InvalidTransaction("invalid or repeated ref name"@))
    } else {
        Ok(claimed.push(name))
    }
}

/// The lists of absent fields that the requirements give.
pub open spec fn absent_lists(requirements: Seq<Requirement>) -> Seq<Seq<u32>>
    decreases requirements.len(),
{
    if requirements.len() == 0 {
        Seq::empty()
    } else {
        let before = absent_lists(requirements.drop_last());
        match requirements.last()@ {
            RequirementView::FieldIdsAbsent(ids) => before.push(ids),
            _ => before,
        }
    }
}

/// The list names each added field once, and no other.
pub open spec fn covers(listed: Seq<u32>, added: Seq<u32>) -> bool {
    &&& listed.no_duplicates()
    &&& forall|id: u32| #[trigger] listed.contains(id) <==> added.contains(id)
}

/// Whether the requirements allow a schema to be added. `problem` is what the
/// protocol's own rules find wrong with the schema.
pub open spec fn schema_check(
    catalog: Catalog,
    requirements: Seq<Requirement>,
    problem: Option<ProtocolError>,
    schema: Schema,
) -> Result<(), ErrorView> {
    let current = catalog.current_schema.schema_id;
    if times(requirements, RequirementView::CurrentSchemaIs(current)) != 1 || times(
        requirements,
        RequirementView::SchemaIdAbsent(schema.schema_id),
    ) != 1 {
        Err(required_error())
    } else if problem is Some {
        Err(ErrorView::Protocol(problem->0.code@, problem->0.message@))
    } else {
        match schema_additions(catalog.current_schema@, schema@) {
            Err(e) => Err(e),
            Ok(added) => {
                let lists = absent_lists(requirements);
                if lists.len() == 0 {
                    Err(ErrorView::InvalidTransaction("field_ids_absent required"@))
                } else if lists.len() != 1 || !covers(lists[0], added) {
                    Err(
                        ErrorView::InvalidTransaction(
                            "field_ids_absent must cover exactly all new IDs"@,
                        ),
                    )
                } else {
                    Ok(())
                }
            },
        }
    }
}

pub open spec fn invalid_tx(message: Seq<char>) -> ErrorView {
    ErrorView::InvalidTransaction(message)
}

pub open spec fn has_null(updates: Seq<Member>) -> bool {
    exists|i: int| 0 <= i < updates.len() && (#[trigger] updates[i]).value@ is Null
}

/// The result of one operation and the claims that it adds.
pub open spec fn operation_step(
    catalog: Catalog,
    requirements: Seq<Requirement>,
    problem: Option<ProtocolError>,
    before: Progress,
    operation: OperationRequest,
) -> Result<Progress, ErrorView> {
    match operation {
        OperationRequest::SetProperties { operation_id, updates, removals } => {
            let keys = update_keys(updates@) + texts_view(removals@);
            if has_null(updates@) {
                Err(invalid_tx("top-level null property value"@))
            } else {
                match claim_keys(requirements, before.keys, keys) {
                    Err(e) => Err(e),
                    Ok(claimed) => Ok(
                        Progress {
                            keys: claimed,
                            results: before.results.push(
                                ResultView::Properties(operation_id@, keys.to_set()),
                            ),
                            ..before
                        },
                    ),
                }
            }
        },
        OperationRequest::CreateRef { operation_id, name, ref_type, snapshot_id } => {
            if times(requirements, RequirementView::RefAbsent(name@)) != 1 {
                Err(required_error())
            } else if ref_type is Tag && snapshot_id is None {
                Err(invalid_tx("tags require a snapshot"@))
            } else if snapshot_id matches Some(id) && times(
                requirements,
                RequirementView::SnapshotExists(id),
            ) != 1 {
                Err(required_error())
            } else {
                claimed_ref(before, operation_id@, name@, ref_type, snapshot_id)
            }
        },
        OperationRequest::ReplaceRef { operation_id, name, snapshot_id } => {
            match ref_of(catalog.refs@, name@) {
                None => Err(ErrorView::RefNotFound(name@)),
                Some((_, former)) => if times(
                    requirements,
                    RequirementView::RefExists(name@, RefType::Branch),
                ) != 1 || times(requirements, RequirementView::RefSnapshotIs(name@, former)) != 1
                    || times(requirements, RequirementView::SnapshotExists(snapshot_id)) != 1 {
                    Err(required_error())
                } else {
                    claimed_ref(before, operation_id@, name@, RefType::Branch, Some(snapshot_id))
                },
            }
        },
        OperationRequest::DropRef { operation_id, name } => {
            if name@ == "main"@ {
                Err(invalid_tx("main cannot be dropped"@))
            } else {
                match ref_of(catalog.refs@, name@) {
                    None => Err(ErrorView::RefNotFound(name@)),
                    Some((kind, former)) => if times(
                        requirements,
                        RequirementView::RefExists(name@, kind),
                    ) != 1 || times(requirements, RequirementView::RefSnapshotIs(name@, former))
                        != 1 {
                        Err(required_error())
                    } else {
                        claimed_ref(before, operation_id@, name@, kind, former)
                    },
                }
            }
        },
        OperationRequest::AddSchema { operation_id, schema } => {
            if before.added_schema {
                Err(invalid_tx("only one add_schema is supported"@))
            } else {
                match schema_check(catalog, requirements, problem, schema) {
                    Err(e) => Err(e),
                    Ok(()) => Ok(
                        Progress {
                            added_schema: true,
                            results: before.results.push(
                                ResultView::Schema(operation_id@, schema.schema_id),
                            ),
                            ..before
                        },
                    ),
                }
            }
        },
        OperationRequest::SetCurrentSchema { operation_id, schema_id } => {
            if before.set_schema {
                Err(invalid_tx("only one set_current_schema is supported"@))
            } else if times(
                requirements,
                RequirementView::CurrentSchemaIs(catalog.current_schema.schema_id),
            ) != 1 {
                Err(required_error())
            } else {
                Ok(
                    Progress {
                        set_schema: true,
                        results: before.results.push(ResultView::Schema(operation_id@, schema_id)),
                        ..before
                    },
                )
            }
        },
    }
}

pub open spec fn claimed_ref(
    before: Progress,
    operation_id: Seq<char>,
    name: Seq<char>,
    ref_type: RefType,
    snapshot_id: Option<Id>,
) -> Result<Progress, ErrorView> {
    match claim_ref(before.refs, name) {
        Err(e) => Err(e),
        Ok(refs) => Ok(
            Progress {
                refs,
                results: before.results.push(
                    ResultView::Ref(operation_id, name, ref_type, snapshot_id),
                ),
                ..before
            },
        ),
    }
}

/// The claims and results of the operations, in their order.
pub open spec fn progress(
    catalog: Catalog,
    requirements: Seq<Requirement>,
    problem: Option<ProtocolError>,
    operations: Seq<OperationRequest>,
) -> Result<Progress, ErrorView>
    decreases operations.len(),
{
    if operations.len() == 0 {
        Ok(no_progress())
    } else {
        match progress(catalog, requirements, problem, operations.drop_last()) {
            Err(e) => Err(e),
            Ok(before) => {
                let id = operations.last().spec_id();
                if id.len() == 0 || before.ids.contains(id) {
                    Err(invalid_tx("operation IDs must be nonempty and unique"@))
                } else {
                    operation_step(
                        catalog,
                        requirements,
                        problem,
                        Progress { ids: before.ids.push(id), ..before },
                        operations.last(),
                    )
                }
            },
        }
    }
}

/// The results of a transaction on a table; or why it is refused.
pub open spec fn prepared(
    catalog: Catalog,
    request: TransactionRequest,
    shown: Seq<Seq<char>>,
    problem: Option<ProtocolError>,
) -> Result<Seq<ResultView>, ErrorView> {
    if request.idempotency_key@.len() == 0 || request.idempotency_key@ == "otmp.genesis"@
        || request.operations@.len() == 0 {
        Err(invalid_tx("nonempty key and operations required"@))
    } else {
        match evaluation(catalog, request.requirements@, shown) {
            Err(e) => Err(e),
            Ok(()) => match progress(catalog, request.requirements@, problem, request.operations@) {
                Err(e) => Err(e),
                Ok(done) => Ok(done.results),
            },
        }
    }
}

proof fn lemma_progress_stops(
    catalog: Catalog,
    requirements: Seq<Requirement>,
    problem: Option<ProtocolError>,
    operations: Seq<OperationRequest>,
    n: int,
)
    requires
        0 <= n <= operations.len(),
        progress(catalog, requirements, problem, operations.take(n)) is Err,
    ensures
        progress(catalog, requirements, problem, operations) == progress(
            catalog,
            requirements,
            problem,
            operations.take(n),
        ),
    decreases operations.len(),
{
    if n < operations.len() {
        assert(operations.drop_last().take(n) =~= operations.take(n));
        lemma_progress_stops(catalog, requirements, problem, operations.drop_last(), n);
    } else {
        assert(operations.take(n) =~= operations);
    }
}

proof fn lemma_claim_stops(
    requirements: Seq<Requirement>,
    claimed: Seq<Seq<char>>,
    keys: Seq<Seq<char>>,
    n: int,
)
    requires
        0 <= n <= keys.len(),
        claim_keys(requirements, claimed, keys.take(n)) is Err,
    ensures
        claim_keys(requirements, claimed, keys) == claim_keys(requirements, claimed, keys.take(n)),
    decreases keys.len(),
{
    if n < keys.len() {
        assert(keys.drop_last().take(n) =~= keys.take(n));
        lemma_claim_stops(requirements, claimed, keys.drop_last(), n);
    } else {
        assert(keys.take(n) =~= keys);
    }
}

fn property_count(requirements: &Vec<Requirement>, key: &String) -> (count: usize)
    ensures
        count == property_times(requirements@, key@),
{
    let mut count: usize = 0;
    let mut i: usize = 0;
    assert(requirements@.take(0) =~= Seq::<Requirement>::empty());
    while i < requirements.len()
        invariant
            i <= requirements@.len(),
            count <= i,
            count == property_times(requirements@.take(i as int), key@),
        decreases requirements@.len() - i,
    {
        assert(requirements@.take(i + 1).drop_last() =~= requirements@.take(i as int));
        match &requirements[i] {
            Requirement::PropertyIs { key: other, .. } => {
                if *other == *key {
                    count = count + 1;
                }
            },
            _ => {},
        }
        i = i + 1;
    }
    assert(requirements@.take(i as int) =~= requirements@);
    count
}

/// Every key in the list was claimed.
proof fn lemma_claimed(
    requirements: Seq<Requirement>,
    claimed: Seq<Seq<char>>,
    keys: Seq<Seq<char>>,
)
    requires
        claim_keys(requirements, claimed, keys) is Ok,
    ensures
        forall|key: Seq<char>| #[trigger]
            claim_keys(requirements, claimed, keys)->Ok_0.contains(key) <==> claimed.contains(key)
                || keys.contains(key),
    decreases keys.len(),
{
    if keys.len() > 0 {
        lemma_claimed(requirements, claimed, keys.drop_last());
        let before = claim_keys(requirements, claimed, keys.drop_last())->Ok_0;
        let after = before.push(keys.last());
        assert forall|key: Seq<char>| #[trigger] after.contains(key) <==> claimed.contains(key)
            || keys.contains(key) by {
            if after.contains(key) {
                let k = choose|k: int| 0 <= k < after.len() && after[k] == key;
                if k < before.len() {
                    assert(before[k] == key);
                    assert(before.contains(key));
                    if keys.drop_last().contains(key) {
                        let j = choose|j: int|
                            0 <= j < keys.drop_last().len() && keys.drop_last()[j] == key;
                        assert(keys[j] == key);
                    }
                } else {
                    assert(keys[keys.len() - 1] == key);
                }
            }
            if keys.contains(key) {
                let j = choose|j: int| 0 <= j < keys.len() && keys[j] == key;
                if j < keys.len() - 1 {
                    assert(keys.drop_last()[j] == key);
                    assert(before.contains(key));
                }
            }
            if before.contains(key) {
                let k = choose|k: int| 0 <= k < before.len() && before[k] == key;
                assert(after[k] == key);
            }
            if key == keys.last() {
                assert(after[before.len() as int] == key);
            }
            if claimed.contains(key) {
                assert(before.contains(key));
            }
        }
    }
}

proof fn lemma_push_text(texts: Seq<String>, text: String)
    ensures
        texts_view(texts.push(text)) == texts_view(texts).push(text@),
{
    assert(texts_view(texts.push(text)) =~= texts_view(texts).push(text@));
}

/// Claims one property key.
fn claim_key(
    requirements: &Vec<Requirement>,
    claimed: &mut Vec<String>,
    touched: &mut Vec<String>,
    key: &String,
) -> (r: Result<(), RuntimeError>)
    requires
        ascending(texts_view(old(touched)@)),
        forall|x: Seq<char>| #[trigger]
            texts_view(old(touched)@).contains(x) ==> texts_view(old(claimed)@).contains(x),
    ensures
        ({
            let plan = claim_keys(requirements@, texts_view(old(claimed)@), seq![key@]);
            match r {
                Ok(()) => {
                    &&& plan == Ok::<Seq<Seq<char>>, ErrorView>(texts_view(final(claimed)@))
                    &&& texts_view(final(claimed)@) == texts_view(old(claimed)@).push(key@)
                    &&& ascending(texts_view(final(touched)@))
                    &&& forall|x: Seq<char>| #[trigger]
                        texts_view(final(touched)@).contains(x) <==> texts_view(
                            old(touched)@,
                        ).contains(x) || x == key@
                },
                Err(e) => plan == Err::<Seq<Seq<char>>, ErrorView>(e@),
            }
        }),
{
    proof {
        reveal_with_fuel(claim_keys, 2);
        assert(seq![key@].drop_last() =~= Seq::<Seq<char>>::empty());
    }
    if key.as_str().unicode_len() == 0 || begins_with(key.as_str(), "otmp.") || holds_text(
        claimed,
        key,
    ) {
        return Err(invalid("reserved, empty, overlapping, or repeated property key"));
    }
    if property_count(requirements, key) != 1 {
        return Err(invalid("each property key requires exactly one property_is"));
    }
    let copy = key.clone();
    proof {
        lemma_push_text(claimed@, copy);
    }
    claimed.push(copy);
    insert_text(touched, key.clone());
    Ok(())
}

/// Claims the keys of a property change, and lists them in ascending order.
fn claim_properties(
    requirements: &Vec<Requirement>,
    claimed: &mut Vec<String>,
    updates: &Vec<Member>,
    removals: &Vec<String>,
) -> (r: Result<Vec<String>, RuntimeError>)
    ensures
        ({
            let keys = update_keys(updates@) + texts_view(removals@);
            let plan = claim_keys(requirements@, texts_view(old(claimed)@), keys);
            match r {
                Ok(touched) => {
                    &&& plan == Ok::<Seq<Seq<char>>, ErrorView>(texts_view(final(claimed)@))
                    &&& ascending(texts_view(touched@))
                    &&& forall|x: Seq<char>| #[trigger]
                        texts_view(touched@).contains(x) <==> keys.to_set().contains(x)
                },
                Err(e) => plan == Err::<Seq<Seq<char>>, ErrorView>(e@),
            }
        }),
{
    let ghost keys = update_keys(updates@) + texts_view(removals@);
    let ghost start = texts_view(claimed@);
    let total: usize = updates.len();
    let mut touched: Vec<String> = Vec::new();
    let mut i: usize = 0;
    proof {
        assert(keys.take(0) =~= Seq::<Seq<char>>::empty());
    }
    while i < updates.len()
        invariant
            i <= updates@.len(),
            keys == update_keys(updates@) + texts_view(removals@),
            start == texts_view(old(claimed)@),
            claim_keys(requirements@, start, keys.take(i as int)) == Ok::<
                Seq<Seq<char>>,
                ErrorView,
            >(texts_view(claimed@)),
            ascending(texts_view(touched@)),
            forall|x: Seq<char>| #[trigger]
                texts_view(touched@).contains(x) <==> keys.take(i as int).contains(x),
        decreases updates@.len() - i,
    {
        proof {
            lemma_next_claim(requirements@, start, keys, i as int);
            assert(keys[i as int] == updates@[i as int].key@);
        }
        match claim_key(requirements, claimed, &mut touched, &updates[i].key) {
            Err(e) => {
                proof {
                    lemma_claim_stops(requirements@, start, keys, i + 1);
                }
                return Err(e);
            },
            Ok(()) => {},
        }
        i = i + 1;
    }
    let mut j: usize = 0;
    assert(keys.take(updates@.len() + j) =~= keys.take(i as int));
    while j < removals.len()
        invariant
            j <= removals@.len(),
            keys == update_keys(updates@) + texts_view(removals@),
            start == texts_view(old(claimed)@),
            claim_keys(requirements@, start, keys.take(updates@.len() + j)) == Ok::<
                Seq<Seq<char>>,
                ErrorView,
            >(texts_view(claimed@)),
            ascending(texts_view(touched@)),
            forall|x: Seq<char>| #[trigger]
                texts_view(touched@).contains(x) <==> keys.take(updates@.len() + j).contains(x),
        decreases removals@.len() - j,
    {
        proof {
            lemma_next_claim(requirements@, start, keys, updates@.len() + j);
            assert(keys[updates@.len() + j] == removals@[j as int]@);
        }
        match claim_key(requirements, claimed, &mut touched, &removals[j]) {
            Err(e) => {
                proof {
                    lemma_claim_stops(requirements@, start, keys, updates@.len() + j + 1);
                }
                return Err(e);
            },
            Ok(()) => {},
        }
        j = j + 1;
    }
    assert(keys.take(updates@.len() + j) =~= keys);
    Ok(touched)
}

/// Claiming one more key of a list.
proof fn lemma_next_claim(
    requirements: Seq<Requirement>,
    start: Seq<Seq<char>>,
    keys: Seq<Seq<char>>,
    i: int,
)
    requires
        0 <= i < keys.len(),
        claim_keys(requirements, start, keys.take(i)) is Ok,
    ensures
        ({
            let before = claim_keys(requirements, start, keys.take(i))->Ok_0;
            claim_keys(requirements, start, keys.take(i + 1)) == claim_keys(
                requirements,
                before,
                seq![keys[i]],
            )
        }),
        forall|x: Seq<char>| #[trigger]
            keys.take(i).contains(x) ==> claim_keys(
                requirements,
                start,
                keys.take(i),
            )->Ok_0.contains(x),
        forall|x: Seq<char>| #[trigger]
            keys.take(i + 1).contains(x) <==> keys.take(i).contains(x) || x == keys[i],
{
    reveal_with_fuel(claim_keys, 2);
    assert(seq![keys[i]].drop_last() =~= Seq::<Seq<char>>::empty());
    assert(keys.take(i + 1).drop_last() =~= keys.take(i));
    lemma_claimed(requirements, start, keys.take(i));
    assert forall|x: Seq<char>| #[trigger] keys.take(i + 1).contains(x) <==> keys.take(i).contains(
        x,
    ) || x == keys[i] by {
        let next = keys.take(i + 1);
        if next.contains(x) {
            let k = choose|k: int| 0 <= k < next.len() && next[k] == x;
            if k < i {
                assert(keys.take(i)[k] == x);
            }
        }
        if keys.take(i).contains(x) {
            let k = choose|k: int| 0 <= k < i && keys.take(i)[k] == x;
            assert(next[k] == x);
        }
        if x == keys[i] {
            assert(next[i] == x);
        }
    }
}

/// Claims a ref name.
fn validate_ref_name(name: &String, refs: &mut Vec<String>) -> (r: Result<(), RuntimeError>)
    ensures
        match r {
            Ok(()) => {
                &&& claim_ref(texts_view(old(refs)@), name@) == Ok::<Seq<Seq<char>>, ErrorView>(
                    texts_view(final(refs)@),
                )
                &&& final(refs)@.len() == old(refs)@.len() + 1
                &&& final(refs)@.drop_last() == old(refs)@
                &&& final(refs)@.last()@ == name@
            },
            Err(e) => {
                &&& claim_ref(texts_view(old(refs)@), name@) == Err::<Seq<Seq<char>>, ErrorView>(
                    e@,
                )
                &&& final(refs)@ == old(refs)@
            },
        },
{
    if name.as_str().unicode_len() == 0 || !has_no_control(name.as_str()) || holds_text(refs, name) {
        return Err(invalid("invalid or repeated ref name"));
    }
    let copy = name.clone();
    proof {
        lemma_push_text(refs@, copy);
    }
    let ghost before = refs@;
    refs.push(copy);
    assert(refs@.drop_last() =~= before);
    Ok(())
}

fn holds_null(updates: &Vec<Member>) -> (found: bool)
    ensures
        found == has_null(updates@),
{
    let mut i: usize = 0;
    while i < updates.len()
        invariant
            i <= updates@.len(),
            forall|k: int| 0 <= k < i ==> !((#[trigger] updates@[k]).value@ is Null),
        decreases updates@.len() - i,
    {
        match &updates[i].value {
            CanonicalValue::Null => {
                return true;
            },
            _ => {},
        }
        i = i + 1;
    }
    false
}

fn covers_exactly(listed: &Vec<u32>, added: &Vec<u32>) -> (exact: bool)
    ensures
        exact == covers(listed@, added@),
{
    if !distinct_numbers(listed) {
        return false;
    }
    let mut i: usize = 0;
    while i < listed.len()
        invariant
            i <= listed@.len(),
            forall|k: int| 0 <= k < i ==> added@.contains(#[trigger] listed@[k]),
        decreases listed@.len() - i,
    {
        if !holds_number(added, listed[i]) {
            assert(listed@.contains(listed@[i as int]));
            return false;
        }
        i = i + 1;
    }
    let mut j: usize = 0;
    while j < added.len()
        invariant
            j <= added@.len(),
            forall|k: int| 0 <= k < j ==> listed@.contains(#[trigger] added@[k]),
        decreases added@.len() - j,
    {
        if !holds_number(listed, added[j]) {
            assert(added@.contains(added@[j as int]));
            return false;
        }
        j = j + 1;
    }
    assert forall|id: u32| #[trigger] listed@.contains(id) <==> added@.contains(id) by {
        if listed@.contains(id) {
            let k = choose|k: int| 0 <= k < listed@.len() && listed@[k] == id;
            assert(added@.contains(listed@[k]));
        }
        if added@.contains(id) {
            let k = choose|k: int| 0 <= k < added@.len() && added@[k] == id;
            assert(listed@.contains(added@[k]));
        }
    }
    true
}

/// Checks that a schema may be added.
fn check_schema(
    catalog: &Catalog,
    requirements: &Vec<Requirement>,
    problem: &Option<ProtocolError>,
    schema: &Schema,
) -> (r: Result<(), RuntimeError>)
    ensures
        match r {
            Ok(()) => schema_check(*catalog, requirements@, *problem, *schema) is Ok,
            Err(e) => schema_check(*catalog, requirements@, *problem, *schema) == Err::<
                (),
                ErrorView,
            >(e@),
        },
{
    match required(
        requirements,
        &Requirement::CurrentSchemaIs { schema_id: catalog.current_schema.schema_id },
    ) {
        Err(e) => {
            return Err(e);
        },
        Ok(()) => {},
    }
    match required(requirements, &Requirement::SchemaIdAbsent { schema_id: schema.schema_id }) {
        Err(e) => {
            return Err(e);
        },
        Ok(()) => {},
    }
    match problem {
        Some(found) => {
            return Err(
                RuntimeError::Protocol(
                    ProtocolError { code: found.code.clone(), message: found.message.clone() },
                ),
            );
        },
        None => {},
    }
    let added = match additive_schema(&catalog.current_schema, schema) {
        Err(e) => {
            return Err(e);
        },
        Ok(added) => added,
    };
    let mut count: usize = 0;
    let mut first: Option<usize> = None;
    let mut i: usize = 0;
    assert(requirements@.take(0) =~= Seq::<Requirement>::empty());
    while i < requirements.len()
        invariant
            i <= requirements@.len(),
            count <= i,
            count == absent_lists(requirements@.take(i as int)).len(),
            match first {
                None => count == 0,
                Some(at) => {
                    &&& count > 0
                    &&& at < requirements@.len()
                    &&& requirements@[at as int] matches Requirement::FieldIdsAbsent { field_ids }
                    &&& absent_lists(requirements@.take(i as int))[0] == field_ids@
                },
            },
        decreases requirements@.len() - i,
    {
        assert(requirements@.take(i + 1).drop_last() =~= requirements@.take(i as int));
        match &requirements[i] {
            Requirement::FieldIdsAbsent { .. } => {
                if count == 0 {
                    first = Some(i);
                }
                count = count + 1;
            },
            _ => {},
        }
        i = i + 1;
    }
    assert(requirements@.take(i as int) =~= requirements@);
    match first {
        None => Err(invalid("field_ids_absent required")),
        Some(at) => {
            let exact: bool = match &requirements[at] {
                Requirement::FieldIdsAbsent { field_ids } => covers_exactly(field_ids, &added),
                _ => false,
            };
            proof {
                let planned = schema_additions(catalog.current_schema@, schema@)->Ok_0;
                assert(covers(absent_lists(requirements@)[0], added@) == covers(
                    absent_lists(requirements@)[0],
                    planned,
                ));
            }
            if count != 1 || !exact {
                return Err(invalid("field_ids_absent must cover exactly all new IDs"));
            }
            Ok(())
        },
    }
}

/// What the operations so far have claimed, as it is kept while preparing.
struct Claims {
    ids: Vec<String>,
    keys: Vec<String>,
    refs: Vec<String>,
    added_schema: bool,
    set_schema: bool,
    results: Vec<OperationResult>,
}

spec fn is_progress(claims: Claims, done: Progress) -> bool {
    &&& texts_view(claims.ids@) == done.ids
    &&& texts_view(claims.keys@) == done.keys
    &&& texts_view(claims.refs@) == done.refs
    &&& claims.added_schema == done.added_schema
    &&& claims.set_schema == done.set_schema
    &&& results_are(claims.results@, done.results)
}

fn require_each(requirements: &Vec<Requirement>, wanted: &Vec<Requirement>) -> (r: Result<
    (),
    RuntimeError,
>)
    ensures
        match r {
            Ok(()) => forall|i: int|
                0 <= i < wanted@.len() ==> times(requirements@, (#[trigger] wanted@[i])@) == 1,
            Err(e) => {
                &&& e@ == required_error()
                &&& exists|i: int|
                    0 <= i < wanted@.len() && times(requirements@, (#[trigger] wanted@[i])@) != 1
            },
        },
{
    let mut i: usize = 0;
    while i < wanted.len()
        invariant
            i <= wanted@.len(),
            forall|k: int|
                0 <= k < i ==> times(requirements@, (#[trigger] wanted@[k])@) == 1,
        decreases wanted@.len() - i,
    {
        match required(requirements, &wanted[i]) {
            Err(e) => {
                assert(times(requirements@, wanted@[i as int]@) != 1);
                return Err(e);
            },
            Ok(()) => {},
        }
        i = i + 1;
    }
    Ok(())
}

/// Adds the result of a ref operation.
fn claim_ref_result(
    claims: &mut Claims,
    operation_id: &String,
    name: &String,
    ref_type: RefType,
    snapshot_id: Option<Id>,
    Ghost(before): Ghost<Progress>,
) -> (r: Result<(), RuntimeError>)
    requires
        is_progress(*old(claims), before),
    ensures
        ({
            let plan = claimed_ref(before, operation_id@, name@, ref_type, snapshot_id);
            match r {
                Ok(()) => plan matches Ok(done) && is_progress(*final(claims), done),
                Err(e) => plan == Err::<Progress, ErrorView>(e@),
            }
        }),
{
    match validate_ref_name(name, &mut claims.refs) {
        Err(e) => {
            return Err(e);
        },
        Ok(()) => {},
    }
    claims.results.push(
        OperationResult::Ref {
            operation_id: operation_id.clone(),
            name: name.clone(),
            ref_type,
            snapshot_id,
        },
    );
    proof {
        let done = claimed_ref(before, operation_id@, name@, ref_type, snapshot_id)->Ok_0;
        assert(results_are(claims.results@, done.results));
    }
    Ok(())
}

/// Prepares one operation.
fn prepare_operation(
    catalog: &Catalog,
    requirements: &Vec<Requirement>,
    problem: &Option<ProtocolError>,
    claims: &mut Claims,
    operation: &OperationRequest,
    Ghost(before): Ghost<Progress>,
) -> (r: Result<(), RuntimeError>)
    requires
        is_progress(*old(claims), before),
    ensures
        ({
            let plan = operation_step(*catalog, requirements@, *problem, before, *operation);
            match r {
                Ok(()) => plan matches Ok(done) && is_progress(*final(claims), done),
                Err(e) => plan == Err::<Progress, ErrorView>(e@),
            }
        }),
{
    let ghost plan = operation_step(*catalog, requirements@, *problem, before, *operation);
    match operation {
        OperationRequest::SetProperties { operation_id, updates, removals } => {
            if holds_null(updates) {
                return Err(invalid("top-level null property value"));
            }
            let touched = match claim_properties(
                requirements,
                &mut claims.keys,
                updates,
                removals,
            ) {
                Err(e) => {
                    return Err(e);
                },
                Ok(touched) => touched,
            };
            claims.results.push(
                OperationResult::Properties { operation_id: operation_id.clone(), keys: touched },
            );
            proof {
                let done = plan->Ok_0;
                assert(result_is(claims.results@.last(), done.results.last()));
                assert(results_are(claims.results@, done.results));
            }
            Ok(())
        },
        OperationRequest::CreateRef { operation_id, name, ref_type, snapshot_id } => {
            match required(requirements, &Requirement::RefAbsent { name: name.clone() }) {
                Err(e) => {
                    return Err(e);
                },
                Ok(()) => {},
            }
            if *ref_type == RefType::Tag && snapshot_id.is_none() {
                return Err(invalid("tags require a snapshot"));
            }
            match snapshot_id {
                Some(id) => {
                    match required(requirements, &Requirement::SnapshotExists { snapshot_id: *id }) {
                        Err(e) => {
                            return Err(e);
                        },
                        Ok(()) => {},
                    }
                },
                None => {},
            }
            claim_ref_result(claims, operation_id, name, *ref_type, *snapshot_id, Ghost(before))
        },
        OperationRequest::ReplaceRef { operation_id, name, snapshot_id } => {
            let former: Option<Id> = match ref_row(&catalog.refs, name) {
                None => {
                    return Err(RuntimeError::RefNotFound(name.clone()));
                },
                Some(row) => row.1,
            };
            let mut wanted: Vec<Requirement> = Vec::new();
            wanted.push(Requirement::RefExists { name: name.clone(), ref_type: RefType::Branch });
            wanted.push(Requirement::RefSnapshotIs { name: name.clone(), snapshot_id: former });
            wanted.push(Requirement::SnapshotExists { snapshot_id: *snapshot_id });
            match require_each(requirements, &wanted) {
                Err(e) => {
                    return Err(e);
                },
                Ok(()) => {},
            }
            proof {
                assert(times(requirements@, wanted@[0]@) == 1);
                assert(times(requirements@, wanted@[1]@) == 1);
                assert(times(requirements@, wanted@[2]@) == 1);
            }
            claim_ref_result(
                claims,
                operation_id,
                name,
                RefType::Branch,
                Some(*snapshot_id),
                Ghost(before),
            )
        },
        OperationRequest::DropRef { operation_id, name } => {
            if reads(name, "main") {
                return Err(invalid("main cannot be dropped"));
            }
            let (kind, former): (RefType, Option<Id>) = match ref_row(&catalog.refs, name) {
                None => {
                    return Err(RuntimeError::RefNotFound(name.clone()));
                },
                Some(row) => row,
            };
            let mut wanted: Vec<Requirement> = Vec::new();
            wanted.push(Requirement::RefExists { name: name.clone(), ref_type: kind });
            wanted.push(Requirement::RefSnapshotIs { name: name.clone(), snapshot_id: former });
            match require_each(requirements, &wanted) {
                Err(e) => {
                    return Err(e);
                },
                Ok(()) => {},
            }
            proof {
                assert(times(requirements@, wanted@[0]@) == 1);
                assert(times(requirements@, wanted@[1]@) == 1);
            }
            claim_ref_result(claims, operation_id, name, kind, former, Ghost(before))
        },
        OperationRequest::AddSchema { operation_id, schema } => {
            if claims.added_schema {
                return Err(invalid("only one add_schema is supported"));
            }
            claims.added_schema = true;
            match check_schema(catalog, requirements, problem, schema) {
                Err(e) => {
                    return Err(e);
                },
                Ok(()) => {},
            }
            claims.results.push(
                OperationResult::Schema {
                    operation_id: operation_id.clone(),
                    schema_id: schema.schema_id,
                },
            );
            proof {
                assert(results_are(claims.results@, plan->Ok_0.results));
            }
            Ok(())
        },
        OperationRequest::SetCurrentSchema { operation_id, schema_id } => {
            if claims.set_schema {
                return Err(invalid("only one set_current_schema is supported"));
            }
            claims.set_schema = true;
            match required(
                requirements,
                &Requirement::CurrentSchemaIs { schema_id: catalog.current_schema.schema_id },
            ) {
                Err(e) => {
                    return Err(e);
                },
                Ok(()) => {},
            }
            claims.results.push(
                OperationResult::Schema { operation_id: operation_id.clone(), schema_id: *schema_id },
            );
            proof {
                assert(results_are(claims.results@, plan->Ok_0.results));
            }
            Ok(())
        },
    }
}

/// Checks a transaction against the table and gives the results of its
/// operations. `shown` is how each requirement shows itself in a message, and
/// `problem` is what the protocol's own rules find wrong with the schema that the
/// transaction adds.
pub fn prepare_operations(
    catalog: &Catalog,
    request: &TransactionRequest,
    shown: &Vec<String>,
    problem: &Option<ProtocolError>,
) -> (r: Result<Vec<OperationResult>, RuntimeError>)
    requires
        shown@.len() == request.requirements@.len(),
    ensures
        match r {
            Ok(results) => prepared(
                *catalog,
                *request,
                texts_view(shown@),
                *problem,
            ) matches Ok(plan) && results_are(results@, plan),
            Err(e) => prepared(*catalog, *request, texts_view(shown@), *problem) == Err::<
                Seq<ResultView>,
                ErrorView,
            >(e@),
        },
{
    if request.idempotency_key.as_str().unicode_len() == 0 || reads(
        &request.idempotency_key,
        "otmp.genesis",
    ) || request.operations.len() == 0 {
        return Err(invalid("nonempty key and operations required"));
    }
    match evaluate(catalog, &request.requirements, shown) {
        Err(e) => {
            return Err(e);
        },
        Ok(()) => {},
    }
    let operations = &request.operations;
    let requirements = &request.requirements;
    let mut claims = Claims {
        ids: Vec::new(),
        keys: Vec::new(),
        refs: Vec::new(),
        added_schema: false,
        set_schema: false,
        results: Vec::new(),
    };
    let ghost mut done = no_progress();
    proof {
        assert(operations@.take(0) =~= Seq::<OperationRequest>::empty());
        assert(texts_view(claims.ids@) =~= done.ids);
        assert(texts_view(claims.keys@) =~= done.keys);
        assert(texts_view(claims.refs@) =~= done.refs);
    }
    let mut i: usize = 0;
    while i < operations.len()
        invariant
            i <= operations@.len(),
            *operations == request.operations,
            *requirements == request.requirements,
            prepared(*catalog, *request, texts_view(shown@), *problem) == (match progress(
                *catalog,
                requirements@,
                *problem,
                operations@,
            ) {
                Err(e) => Err(e),
                Ok(done) => Ok(done.results),
            }),
            progress(*catalog, requirements@, *problem, operations@.take(i as int)) == Ok::<
                Progress,
                ErrorView,
            >(done),
            is_progress(claims, done),
        decreases operations@.len() - i,
    {
        let operation = &operations[i];
        let id = operation.id();
        proof {
            assert(operations@.take(i + 1).drop_last() =~= operations@.take(i as int));
            if progress(*catalog, requirements@, *problem, operations@.take(i + 1)) is Err {
                lemma_progress_stops(*catalog, requirements@, *problem, operations@, i + 1);
            }
        }
        if id.as_str().unicode_len() == 0 || holds_text(&claims.ids, id) {
            return Err(invalid("operation IDs must be nonempty and unique"));
        }
        let copy = id.clone();
        let ghost before = Progress { ids: done.ids.push(id@), ..done };
        proof {
            lemma_push_text(claims.ids@, copy);
        }
        claims.ids.push(copy);
        match prepare_operation(
            catalog,
            requirements,
            problem,
            &mut claims,
            operation,
            Ghost(before),
        ) {
            Err(e) => {
                return Err(e);
            },
            Ok(()) => {},
        }
        proof {
            done = progress(*catalog, requirements@, *problem, operations@.take(i + 1))->Ok_0;
        }
        i = i + 1;
    }
    assert(operations@.take(i as int) =~= operations@);
    Ok(claims.results)
}

/// One change to the rows of a table.
#[derive(Debug)]
pub enum RowChange {
    PutProperty { key: String, value: CanonicalValue, version: i64 },
    RemoveProperty { key: String },
    InsertRef { name: String, ref_type: RefType, snapshot_id: Option<Id>, version: i64 },
    MoveRef { name: String, snapshot_id: Id, version: i64 },
    RemoveRef { name: String },
    /// No file is live on the branch any more.
    ClearBranch { name: String },
    /// The files that a snapshot added are live on the branch.
    AddBranchFiles { name: String, snapshot_id: Id },
    /// The schema that an operation of the transaction adds, by its place.
    InsertSchema { operation: usize, schema_id: u32, version: i64 },
    SetCurrentSchema { schema_id: u32 },
}

pub enum ChangeView {
    PutProperty(Seq<char>, ValueView, i64),
    RemoveProperty(Seq<char>),
    InsertRef(Seq<char>, RefType, Option<Id>, i64),
    MoveRef(Seq<char>, Id, i64),
    RemoveRef(Seq<char>),
    ClearBranch(Seq<char>),
    AddBranchFiles(Seq<char>, Id),
    InsertSchema(int, u32, i64),
    SetCurrentSchema(u32),
}

impl View for RowChange {
    type V = ChangeView;

    open spec fn view(&self) -> ChangeView {
        match *self {
            RowChange::PutProperty { key, value, version } => ChangeView::PutProperty(
                key@,
                value@,
                version,
            ),
            RowChange::RemoveProperty { key } => ChangeView::RemoveProperty(key@),
            RowChange::InsertRef { name, ref_type, snapshot_id, version } => ChangeView::InsertRef(
                name@,
                ref_type,
                snapshot_id,
                version,
            ),
            RowChange::MoveRef { name, snapshot_id, version } => ChangeView::MoveRef(
                name@,
                snapshot_id,
                version,
            ),
            RowChange::RemoveRef { name } => ChangeView::RemoveRef(name@),
            RowChange::ClearBranch { name } => ChangeView::ClearBranch(name@),
            RowChange::AddBranchFiles { name, snapshot_id } => ChangeView::AddBranchFiles(
                name@,
                snapshot_id,
            ),
            RowChange::InsertSchema { operation, schema_id, version } => ChangeView::InsertSchema(
                operation as int,
                schema_id,
                version,
            ),
            RowChange::SetCurrentSchema { schema_id } => ChangeView::SetCurrentSchema(schema_id),
        }
    }
}

pub open spec fn changes_view(changes: Seq<RowChange>) -> Seq<ChangeView> {
    Seq::new(changes.len(), |i: int| changes[i]@)
}

pub open spec fn put_changes(updates: Seq<Member>, version: i64) -> Seq<ChangeView> {
    Seq::new(
        updates.len(),
        |i: int| ChangeView::PutProperty(updates[i].key@, updates[i].value@, version),
    )
}

pub open spec fn remove_changes(removals: Seq<String>) -> Seq<ChangeView> {
    Seq::new(removals.len(), |i: int| ChangeView::RemoveProperty(removals[i]@))
}

pub open spec fn branch_changes(name: Seq<char>, chain: Seq<Id>) -> Seq<ChangeView> {
    seq![ChangeView::ClearBranch(name)] + Seq::new(
        chain.len(),
        |i: int| ChangeView::AddBranchFiles(name, chain[i]),
    )
}

/// The changes that make a branch hold the files of a snapshot and all before it.
pub open spec fn materialized(catalog: Catalog, name: Seq<char>, tip: Option<Id>) -> Result<
    Seq<ChangeView>,
    ErrorView,
> {
    match lineage(Walk::Branch, catalog.snapshots@, tip, Seq::empty(), u64::MAX as int) {
        Err(e) => Err(e),
        Ok(chain) => Ok(branch_changes(name, chain)),
    }
}

/// Whether a schema exists, or one of the operations adds it.
pub open spec fn schema_known(
    catalog: Catalog,
    operations: Seq<OperationRequest>,
    id: u32,
) -> bool {
    catalog.schema_ids@.contains(id) || exists|i: int|
        0 <= i < operations.len() && (#[trigger] operations[i] matches OperationRequest::AddSchema {
            schema,
            ..
        } && schema.schema_id == id)
}

/// The changes of one operation, after those before it.
pub open spec fn operation_changes(
    catalog: Catalog,
    before: Seq<OperationRequest>,
    operation: OperationRequest,
    version: i64,
) -> Result<Seq<ChangeView>, ErrorView> {
    match operation {
        OperationRequest::SetProperties { updates, removals, .. } => Ok(
            put_changes(updates@, version) + remove_changes(removals@),
        ),
        OperationRequest::CreateRef { name, ref_type, snapshot_id, .. } => {
            let insert = seq![ChangeView::InsertRef(name@, ref_type, snapshot_id, version)];
            if ref_type is Branch {
                match materialized(catalog, name@, snapshot_id) {
                    Err(e) => Err(e),
                    Ok(changes) => Ok(insert + changes),
                }
            } else {
                Ok(insert)
            }
        },
        OperationRequest::ReplaceRef { name, snapshot_id, .. } => match materialized(
            catalog,
            name@,
            Some(snapshot_id),
        ) {
            Err(e) => Err(e),
            Ok(changes) => Ok(seq![ChangeView::MoveRef(name@, snapshot_id, version)] + changes),
        },
        OperationRequest::DropRef { name, .. } => Ok(
            seq![ChangeView::ClearBranch(name@), ChangeView::RemoveRef(name@)],
        ),
        OperationRequest::AddSchema { schema, .. } => Ok(
            seq![ChangeView::InsertSchema(before.len() as int, schema.schema_id, version)],
        ),
        OperationRequest::SetCurrentSchema { schema_id, .. } => if schema_known(
            catalog,
            before,
            schema_id,
        ) {
            Ok(seq![ChangeView::SetCurrentSchema(schema_id)])
        } else {
            Err(invalid_tx("selected schema must already exist in operation order"@))
        },
    }
}

/// The changes of all operations, in their order.
pub open spec fn planned(
    catalog: Catalog,
    operations: Seq<OperationRequest>,
    version: i64,
) -> Result<Seq<ChangeView>, ErrorView>
    decreases operations.len(),
{
    if operations.len() == 0 {
        Ok(Seq::empty())
    } else {
        match planned(catalog, operations.drop_last(), version) {
            Err(e) => Err(e),
            Ok(before) => match operation_changes(
                catalog,
                operations.drop_last(),
                operations.last(),
                version,
            ) {
                Err(e) => Err(e),
                Ok(more) => Ok(before + more),
            },
        }
    }
}

proof fn lemma_planned_stops(
    catalog: Catalog,
    operations: Seq<OperationRequest>,
    version: i64,
    n: int,
)
    requires
        0 <= n <= operations.len(),
        planned(catalog, operations.take(n), version) is Err,
    ensures
        planned(catalog, operations, version) == planned(catalog, operations.take(n), version),
    decreases operations.len(),
{
    if n < operations.len() {
        assert(operations.drop_last().take(n) =~= operations.take(n));
        lemma_planned_stops(catalog, operations.drop_last(), version, n);
    } else {
        assert(operations.take(n) =~= operations);
    }
}

fn push_change(changes: &mut Vec<RowChange>, change: RowChange)
    ensures
        changes_view(final(changes)@) == changes_view(old(changes)@).push(change@),
{
    let ghost before = changes_view(changes@);
    changes.push(change);
    assert(changes_view(changes@) =~= before.push(change@));
}

/// Makes a branch hold the files of a snapshot and all before it.
fn materialize_branch(
    catalog: &Catalog,
    name: &String,
    tip: Option<Id>,
    changes: &mut Vec<RowChange>,
) -> (r: Result<(), RuntimeError>)
    ensures
        match r {
            Ok(()) => materialized(*catalog, name@, tip) matches Ok(more) && changes_view(
                final(changes)@,
            ) == changes_view(old(changes)@) + more,
            Err(e) => materialized(*catalog, name@, tip) == Err::<Seq<ChangeView>, ErrorView>(e@),
        },
{
    let chain = match ancestry(Walk::Branch, &catalog.snapshots, tip) {
        Err(e) => {
            return Err(e);
        },
        Ok(chain) => chain,
    };
    let ghost start = changes_view(changes@);
    let ghost all = branch_changes(name@, chain@);
    push_change(changes, RowChange::ClearBranch { name: name.clone() });
    assert(changes_view(changes@) =~= start + all.take(1));
    let mut i: usize = 0;
    while i < chain.len()
        invariant
            i <= chain@.len(),
            all == branch_changes(name@, chain@),
            changes_view(changes@) == start + all.take(i + 1),
        decreases chain@.len() - i,
    {
        push_change(
            changes,
            RowChange::AddBranchFiles { name: name.clone(), snapshot_id: chain[i] },
        );
        i = i + 1;
        assert(changes_view(changes@) =~= start + all.take(i + 1));
    }
    assert(all.take(i + 1) =~= all);
    Ok(())
}

fn is_schema_known(
    catalog: &Catalog,
    operations: &Vec<OperationRequest>,
    count: usize,
    id: u32,
) -> (known: bool)
    requires
        count <= operations@.len(),
    ensures
        known == schema_known(*catalog, operations@.take(count as int), id),
{
    if holds_number(&catalog.schema_ids, id) {
        return true;
    }
    let ghost before = operations@.take(count as int);
    let mut i: usize = 0;
    while i < count
        invariant
            i <= count <= operations@.len(),
            before == operations@.take(count as int),
            !catalog.schema_ids@.contains(id),
            forall|k: int|
                0 <= k < i ==> !(#[trigger] before[k] matches OperationRequest::AddSchema {
                    schema,
                    ..
                } && schema.schema_id == id),
        decreases count - i,
    {
        assert(before[i as int] == operations@[i as int]);
        match &operations[i] {
            OperationRequest::AddSchema { schema, .. } => {
                if schema.schema_id == id {
                    return true;
                }
            },
            _ => {},
        }
        i = i + 1;
    }
    false
}

/// Lists the changes of one operation.
fn apply_operation(
    catalog: &Catalog,
    operations: &Vec<OperationRequest>,
    at: usize,
    version: i64,
    changes: &mut Vec<RowChange>,
) -> (r: Result<(), RuntimeError>)
    requires
        at < operations@.len(),
    ensures
        ({
            let plan = operation_changes(
                *catalog,
                operations@.take(at as int),
                operations@[at as int],
                version,
            );
            match r {
                Ok(()) => plan matches Ok(more) && changes_view(final(changes)@) == changes_view(
                    old(changes)@,
                ) + more,
                Err(e) => plan == Err::<Seq<ChangeView>, ErrorView>(e@),
            }
        }),
{
    let ghost start = changes_view(changes@);
    match &operations[at] {
        OperationRequest::SetProperties { updates, removals, .. } => {
            let ghost puts = put_changes(updates@, version);
            let ghost removes = remove_changes(removals@);
            let mut i: usize = 0;
            assert(start + puts.take(0) =~= start);
            while i < updates.len()
                invariant
                    i <= updates@.len(),
                    puts == put_changes(updates@, version),
                    changes_view(changes@) == start + puts.take(i as int),
                decreases updates@.len() - i,
            {
                push_change(
                    changes,
                    RowChange::PutProperty {
                        key: updates[i].key.clone(),
                        value: copy_value(&updates[i].value),
                        version,
                    },
                );
                i = i + 1;
                assert(changes_view(changes@) =~= start + puts.take(i as int));
            }
            assert(puts.take(i as int) =~= puts);
            let mut j: usize = 0;
            assert(start + puts + removes.take(0) =~= start + puts);
            while j < removals.len()
                invariant
                    j <= removals@.len(),
                    removes == remove_changes(removals@),
                    changes_view(changes@) == start + puts + removes.take(j as int),
                decreases removals@.len() - j,
            {
                push_change(changes, RowChange::RemoveProperty { key: removals[j].clone() });
                j = j + 1;
                assert(changes_view(changes@) =~= start + puts + removes.take(j as int));
            }
            assert(removes.take(j as int) =~= removes);
            assert(start + puts + removes =~= start + (puts + removes));
            Ok(())
        },
        OperationRequest::CreateRef { name, ref_type, snapshot_id, .. } => {
            let ghost insert = seq![ChangeView::InsertRef(name@, *ref_type, *snapshot_id, version)];
            push_change(
                changes,
                RowChange::InsertRef {
                    name: name.clone(),
                    ref_type: *ref_type,
                    snapshot_id: *snapshot_id,
                    version,
                },
            );
            assert(changes_view(changes@) =~= start + insert);
            if *ref_type == RefType::Branch {
                let r = materialize_branch(catalog, name, *snapshot_id, changes);
                proof {
                    if r is Ok {
                        let more = materialized(*catalog, name@, *snapshot_id)->Ok_0;
                        assert(start + insert + more =~= start + (insert + more));
                    }
                }
                return r;
            }
            Ok(())
        },
        OperationRequest::ReplaceRef { name, snapshot_id, .. } => {
            let ghost moved = seq![ChangeView::MoveRef(name@, *snapshot_id, version)];
            push_change(
                changes,
                RowChange::MoveRef { name: name.clone(), snapshot_id: *snapshot_id, version },
            );
            assert(changes_view(changes@) =~= start + moved);
            let r = materialize_branch(catalog, name, Some(*snapshot_id), changes);
            proof {
                if r is Ok {
                    let more = materialized(*catalog, name@, Some(*snapshot_id))->Ok_0;
                    assert(start + moved + more =~= start + (moved + more));
                }
            }
            r
        },
        OperationRequest::DropRef { name, .. } => {
            push_change(changes, RowChange::ClearBranch { name: name.clone() });
            push_change(changes, RowChange::RemoveRef { name: name.clone() });
            assert(changes_view(changes@) =~= start + seq![
                ChangeView::ClearBranch(name@),
                ChangeView::RemoveRef(name@),
            ]);
            Ok(())
        },
        OperationRequest::AddSchema { schema, .. } => {
            push_change(
                changes,
                RowChange::InsertSchema { operation: at, schema_id: schema.schema_id, version },
            );
            assert(changes_view(changes@) =~= start + seq![
                ChangeView::InsertSchema(at as int, schema.schema_id, version),
            ]);
            Ok(())
        },
        OperationRequest::SetCurrentSchema { schema_id, .. } => {
            if !is_schema_known(catalog, operations, at, *schema_id) {
                return Err(invalid("selected schema must already exist in operation order"));
            }
            push_change(changes, RowChange::SetCurrentSchema { schema_id: *schema_id });
            assert(changes_view(changes@) =~= start + seq![ChangeView::SetCurrentSchema(*schema_id)]);
            Ok(())
        },
    }
}

/// Lists the row changes of a transaction at a table version.
pub fn apply_operations(
    catalog: &Catalog,
    operations: &Vec<OperationRequest>,
    version: u64,
) -> (r: Result<Vec<RowChange>, RuntimeError>)
    ensures
        match r {
            Ok(changes) => version <= i64::MAX && planned(
                *catalog,
                operations@,
                version as i64,
            ) == Ok::<Seq<ChangeView>, ErrorView>(changes_view(changes@)),
            Err(e) => if version > i64::MAX {
                e@ == invalid_tx("version exhausted"@)
            } else {
                planned(*catalog, operations@, version as i64) == Err::<
                    Seq<ChangeView>,
                    ErrorView,
                >(e@)
            },
        },
{
    if version > i64::MAX as u64 {
        return Err(invalid("version exhausted"));
    }
    let stored: i64 = version as i64;
    let mut changes: Vec<RowChange> = Vec::new();
    let mut i: usize = 0;
    proof {
        assert(operations@.take(0) =~= Seq::<OperationRequest>::empty());
        assert(changes_view(changes@) =~= Seq::<ChangeView>::empty());
    }
    while i < operations.len()
        invariant
            i <= operations@.len(),
            version <= i64::MAX,
            stored == version,
            planned(*catalog, operations@.take(i as int), stored) == Ok::<
                Seq<ChangeView>,
                ErrorView,
            >(changes_view(changes@)),
        decreases operations@.len() - i,
    {
        proof {
            assert(operations@.take(i + 1).drop_last() =~= operations@.take(i as int));
            if planned(*catalog, operations@.take(i + 1), stored) is Err {
                lemma_planned_stops(*catalog, operations@, stored, i + 1);
            }
        }
        match apply_operation(catalog, operations, i, stored, &mut changes) {
            Err(e) => {
                return Err(e);
            },
            Ok(()) => {},
        }
        i = i + 1;
    }
    assert(operations@.take(i as int) =~= operations@);
    Ok(changes)
}

/// The rows that operations change: property values, refs, the snapshots whose
/// files each branch holds, schemas and the current one.
pub struct TableState {
    pub properties: Map<Seq<char>, ValueView>,
    pub refs: Map<Seq<char>, (RefType, Option<Id>)>,
    pub branches: Map<Seq<char>, Set<Id>>,
    pub schemas: Set<u32>,
    pub current: u32,
}

/// The rows after one change.
pub open spec fn effect(state: TableState, change: ChangeView) -> TableState {
    match change {
        ChangeView::PutProperty(key, value, _) => TableState {
            properties: state.properties.insert(key, value),
            ..state
        },
        ChangeView::RemoveProperty(key) => TableState {
            properties: state.properties.remove(key),
            ..state
        },
        ChangeView::InsertRef(name, kind, id, _) => TableState {
            refs: state.refs.insert(name, (kind, id)),
            ..state
        },
        ChangeView::MoveRef(name, id, _) => TableState {
            refs: if state.refs.contains_key(name) {
                state.refs.insert(name, (state.refs[name].0, Some(id)))
            } else {
                state.refs
            },
            ..state
        },
        ChangeView::RemoveRef(name) => TableState { refs: state.refs.remove(name), ..state },
        ChangeView::ClearBranch(name) => TableState {
            branches: state.branches.insert(name, Set::empty()),
            ..state
        },
        ChangeView::AddBranchFiles(name, id) => TableState {
            branches: state.branches.insert(name, state.branches[name].insert(id)),
            ..state
        },
        ChangeView::InsertSchema(_, id, _) => TableState {
            schemas: state.schemas.insert(id),
            ..state
        },
        ChangeView::SetCurrentSchema(id) => TableState { current: id, ..state },
    }
}

/// The rows after a list of changes.
pub open spec fn effects(state: TableState, changes: Seq<ChangeView>) -> TableState
    decreases changes.len(),
{
    if changes.len() == 0 {
        state
    } else {
        effect(effects(state, changes.drop_last()), changes.last())
    }
}

proof fn lemma_effects_join(state: TableState, a: Seq<ChangeView>, b: Seq<ChangeView>)
    ensures
        effects(state, a + b) == effects(effects(state, a), b),
    decreases b.len(),
{
    if b.len() == 0 {
        assert(a + b =~= a);
    } else {
        assert((a + b).drop_last() =~= a + b.drop_last());
        lemma_effects_join(state, a, b.drop_last());
    }
}

proof fn lemma_branch_effect(state: TableState, name: Seq<char>, chain: Seq<Id>)
    ensures
        effects(state, branch_changes(name, chain)) == (TableState {
            branches: state.branches.insert(name, chain.to_set()),
            ..state
        }),
    decreases chain.len(),
{
    let all = branch_changes(name, chain);
    if chain.len() == 0 {
        reveal_with_fuel(effects, 2);
        assert(all.drop_last() =~= Seq::<ChangeView>::empty());
        assert(chain.to_set() =~= Set::<Id>::empty());
    } else {
        lemma_branch_effect(state, name, chain.drop_last());
        assert(all.drop_last() =~= branch_changes(name, chain.drop_last()));
        assert(chain.to_set() =~= chain.drop_last().to_set().insert(chain.last())) by {
            assert forall|id: Id| chain.to_set().contains(id) <==> chain.drop_last().to_set().insert(
                chain.last(),
            ).contains(id) by {
                if chain.contains(id) {
                    let k = choose|k: int| 0 <= k < chain.len() && chain[k] == id;
                    if k < chain.len() - 1 {
                        assert(chain.drop_last()[k] == id);
                    }
                }
                if chain.drop_last().contains(id) {
                    let k = choose|k: int|
                        0 <= k < chain.drop_last().len() && chain.drop_last()[k] == id;
                    assert(chain[k] == id);
                }
                if id == chain.last() {
                    assert(chain[chain.len() - 1] == id);
                }
            }
        }
        let before = effects(state, all.drop_last());
        assert(before.branches.insert(name, before.branches[name].insert(chain.last()))
            =~= state.branches.insert(name, chain.to_set()));
    }
}

/// A branch that is created or moved holds the files of its snapshot and of all
/// snapshots before it. Nothing else of the table changes but the ref itself.
pub proof fn lemma_moved_branch(
    catalog: Catalog,
    before: Seq<OperationRequest>,
    operation: OperationRequest,
    version: i64,
    state: TableState,
    name: Seq<char>,
    tip: Option<Id>,
)
    requires
        operation_changes(catalog, before, operation, version) is Ok,
        ({
            ||| operation matches OperationRequest::CreateRef {
                name: n,
                ref_type,
                snapshot_id,
                ..
            } && n@ == name && ref_type is Branch && snapshot_id == tip
            ||| operation matches OperationRequest::ReplaceRef { name: n, snapshot_id, .. } && n@
                == name && tip == Some(snapshot_id) && state.refs.contains_key(name)
                && state.refs[name].0 is Branch
        }),
    ensures
        ({
            let chain = lineage(Walk::Branch, catalog.snapshots@, tip, Seq::empty(), u64::MAX as int);
            &&& chain is Ok
            &&& effects(
                state,
                operation_changes(catalog, before, operation, version)->Ok_0,
            ) == (TableState {
                refs: state.refs.insert(name, (RefType::Branch, tip)),
                branches: state.branches.insert(name, chain->Ok_0.to_set()),
                ..state
            })
        }),
{
    let changes = operation_changes(catalog, before, operation, version)->Ok_0;
    let chain = lineage(Walk::Branch, catalog.snapshots@, tip, Seq::empty(), u64::MAX as int)->Ok_0;
    let first = seq![changes[0]];
    assert(changes =~= first + branch_changes(name, chain));
    lemma_effects_join(state, first, branch_changes(name, chain));
    reveal_with_fuel(effects, 2);
    assert(first.drop_last() =~= Seq::<ChangeView>::empty());
    let moved = effect(state, changes[0]);
    assert(effects(state, first) == moved);
    lemma_branch_effect(moved, name, chain);
}

/// A dropped ref is gone, and no file is live on it. Nothing else changes.
pub proof fn lemma_dropped_ref(
    catalog: Catalog,
    before: Seq<OperationRequest>,
    operation: OperationRequest,
    version: i64,
    state: TableState,
)
    requires
        operation is DropRef,
    ensures
        effects(state, operation_changes(catalog, before, operation, version)->Ok_0) == (TableState {
            refs: state.refs.remove(operation->DropRef_name@),
            branches: state.branches.insert(operation->DropRef_name@, Set::empty()),
            ..state
        }),
{
    let changes = operation_changes(catalog, before, operation, version)->Ok_0;
    reveal_with_fuel(effects, 3);
    assert(changes.drop_last() =~= seq![changes[0]]);
    assert(changes.drop_last().drop_last() =~= Seq::<ChangeView>::empty());
}

/// A transaction that is accepted never drops `main`.
pub proof fn lemma_main_stays(
    catalog: Catalog,
    requirements: Seq<Requirement>,
    problem: Option<ProtocolError>,
    operations: Seq<OperationRequest>,
    i: int,
)
    requires
        progress(catalog, requirements, problem, operations) is Ok,
        0 <= i < operations.len(),
    ensures
        operations[i] matches OperationRequest::DropRef { name, .. } ==> name@ != "main"@,
    decreases operations.len(),
{
    if i < operations.len() - 1 {
        assert(operations.drop_last()[i] == operations[i]);
        lemma_main_stays(catalog, requirements, problem, operations.drop_last(), i);
    }
}

/// The claims of an accepted transaction are each made once: its operation
/// identifiers, its property keys and its ref names are all distinct.
pub proof fn lemma_distinct_claims(
    catalog: Catalog,
    requirements: Seq<Requirement>,
    problem: Option<ProtocolError>,
    operations: Seq<OperationRequest>,
)
    requires
        progress(catalog, requirements, problem, operations) is Ok,
    ensures
        ({
            let done = progress(catalog, requirements, problem, operations)->Ok_0;
            &&& done.ids.no_duplicates()
            &&& done.keys.no_duplicates()
            &&& done.refs.no_duplicates()
            &&& done.ids.len() == operations.len()
            &&& done.results.len() == operations.len()
            &&& forall|i: int|
                0 <= i < operations.len() ==> #[trigger] done.ids[i] == operations[i].spec_id()
        }),
    decreases operations.len(),
{
    if operations.len() > 0 {
        let rest = operations.drop_last();
        lemma_distinct_claims(catalog, requirements, problem, rest);
        let before = progress(catalog, requirements, problem, rest)->Ok_0;
        let done = progress(catalog, requirements, problem, operations)->Ok_0;
        let id = operations.last().spec_id();
        assert(done.ids == before.ids.push(id));
        assert(before.ids.push(id).no_duplicates()) by {
            assert forall|a: int, b: int|
                0 <= a < before.ids.push(id).len() && 0 <= b < before.ids.push(id).len() && a
                    != b implies before.ids.push(id)[a] != before.ids.push(id)[b] by {
                if a == before.ids.len() {
                    assert(before.ids.contains(before.ids[b]));
                } else if b == before.ids.len() {
                    assert(before.ids.contains(before.ids[a]));
                }
            }
        }
        assert forall|i: int| 0 <= i < operations.len() implies #[trigger] done.ids[i]
            == operations[i].spec_id() by {
            if i < rest.len() {
                assert(before.ids[i] == rest[i].spec_id());
            }
        }
        match operations.last() {
            OperationRequest::SetProperties { updates, removals, .. } => {
                lemma_distinct_keys(
                    requirements,
                    before.keys,
                    update_keys(updates@) + texts_view(removals@),
                );
            },
            OperationRequest::CreateRef { name, .. } => {
                lemma_push_distinct(before.refs, name@);
            },
            OperationRequest::ReplaceRef { name, .. } => {
                lemma_push_distinct(before.refs, name@);
            },
            OperationRequest::DropRef { name, .. } => {
                lemma_push_distinct(before.refs, name@);
            },
            _ => {},
        }
    }
}

proof fn lemma_push_distinct(texts: Seq<Seq<char>>, text: Seq<char>)
    requires
        texts.no_duplicates(),
    ensures
        !texts.contains(text) ==> texts.push(text).no_duplicates(),
{
    if !texts.contains(text) {
        let all = texts.push(text);
        assert forall|a: int, b: int|
            0 <= a < all.len() && 0 <= b < all.len() && a != b implies all[a] != all[b] by {
            if a == texts.len() {
                assert(texts.contains(texts[b]));
            } else if b == texts.len() {
                assert(texts.contains(texts[a]));
            }
        }
    }
}

proof fn lemma_distinct_keys(
    requirements: Seq<Requirement>,
    claimed: Seq<Seq<char>>,
    keys: Seq<Seq<char>>,
)
    requires
        claimed.no_duplicates(),
        claim_keys(requirements, claimed, keys) is Ok,
    ensures
        claim_keys(requirements, claimed, keys)->Ok_0.no_duplicates(),
    decreases keys.len(),
{
    if keys.len() > 0 {
        lemma_distinct_keys(requirements, claimed, keys.drop_last());
        lemma_push_distinct(
            claim_keys(requirements, claimed, keys.drop_last())->Ok_0,
            keys.last(),
        );
    }
}

} // verus!

//! Requirements, operations and the row changes that they make.
use otmp::catalog::{ancestry, Catalog, PropertyRow, RefRow, RefType, SnapshotRow, Walk};
use otmp::error::{ProtocolError, RuntimeError};
use otmp::hash::{Id, Sha256};
use otmp::schema::{
    additive_schema, Field, LogicalType, PrimitiveType, Schema, TypeKind,
};
use otmp::transactions::{
    apply_operations, evaluate, prepare_operations, DurableResult, OperationRequest,
    OperationResult, Requirement, RowChange, TransactionRequest,
};
use otmp::value::{
    copy_value, find_member, put_member, same_value, text, with_member, CanonicalValue, Member,
};

fn shown(requirements: &[Requirement]) -> Vec<String> {
    requirements.iter().map(|one| format!("{one:?}")).collect()
}

fn prepare(
    request: &TransactionRequest,
    problem: &Option<ProtocolError>,
) -> Result<Vec<OperationResult>, RuntimeError> {
    prepare_operations(&catalog(), request, &shown(&request.requirements), problem)
}

fn id(n: u8) -> Id {
    Id::from_bytes([n; 16])
}

fn field(field_id: u32, required: bool) -> Field {
    Field {
        field_id,
        name: format!("f{field_id}"),
        required,
        field_type: LogicalType {
            kind: TypeKind::Primitive(PrimitiveType { text: "int64".to_string(), float: false }),
            children: vec![],
        },
        doc: None,
        initial_default: None,
        write_default: None,
    }
}

fn schema(schema_id: u32, parent: Option<u32>, fields: Vec<Field>) -> Schema {
    Schema {
        schema_id,
        parent_schema_id: parent,
        doc: None,
        fields,
        identifier_field_ids: vec![1],
    }
}

fn catalog() -> Catalog {
    Catalog {
        properties: vec![PropertyRow { key: "owner".to_string(), value: text("a") }],
        refs: vec![
            RefRow {
                name: "main".to_string(),
                ref_type: RefType::Branch,
                snapshot_id: Some(id(2)),
            },
            RefRow { name: "v1".to_string(), ref_type: RefType::Tag, snapshot_id: Some(id(1)) },
        ],
        snapshots: vec![
            SnapshotRow { snapshot_id: id(1), parent_snapshot_id: None, sequence_number: 1 },
            SnapshotRow {
                snapshot_id: id(2),
                parent_snapshot_id: Some(id(1)),
                sequence_number: 2,
            },
        ],
        schema_ids: vec![1],
        field_ids: vec![1],
        current_schema: schema(1, None, vec![field(1, true)]),
        default_partition_spec_id: 0,
        default_sort_order_id: 0,
    }
}

fn request(
    requirements: Vec<Requirement>,
    operations: Vec<OperationRequest>,
) -> TransactionRequest {
    TransactionRequest {
        idempotency_key: "key".to_string(),
        requirements,
        operations,
        commit_metadata: vec![],
    }
}

fn set(operation_id: &str, key: &str, value: &str) -> OperationRequest {
    OperationRequest::SetProperties {
        operation_id: operation_id.to_string(),
        updates: vec![Member { key: key.to_string(), value: text(value) }],
        removals: vec![],
    }
}

#[test]
fn requirements_hold_or_name_the_one_that_does_not() {
    let held = vec![
        Requirement::PropertyIs { key: "owner".to_string(), value: text("a") },
        Requirement::RefAbsent { name: "dev".to_string() },
        Requirement::RefExists { name: "v1".to_string(), ref_type: RefType::Tag },
        Requirement::RefSnapshotIs { name: "main".to_string(), snapshot_id: Some(id(2)) },
        Requirement::SnapshotExists { snapshot_id: id(1) },
        Requirement::CurrentSchemaIs { schema_id: 1 },
        Requirement::SchemaIdAbsent { schema_id: 2 },
        Requirement::FieldIdsAbsent { field_ids: vec![2, 3] },
        Requirement::DefaultPartitionSpecIs { partition_spec_id: 0 },
        Requirement::DefaultSortOrderIs { sort_order_id: 0 },
    ];
    evaluate(&catalog(), &held, &shown(&held)).unwrap();
    let failing = vec![
        Requirement::PropertyIs { key: "owner".to_string(), value: text("b") },
        Requirement::RefAbsent { name: "main".to_string() },
        Requirement::RefExists { name: "v1".to_string(), ref_type: RefType::Branch },
        Requirement::RefSnapshotIs { name: "main".to_string(), snapshot_id: None },
        Requirement::SnapshotExists { snapshot_id: id(9) },
        Requirement::CurrentSchemaIs { schema_id: 2 },
        Requirement::SchemaIdAbsent { schema_id: 1 },
        Requirement::FieldIdsAbsent { field_ids: vec![1] },
        Requirement::DefaultPartitionSpecIs { partition_spec_id: 1 },
        Requirement::DefaultSortOrderIs { sort_order_id: 1 },
    ];
    for requirement in failing {
        let alone = vec![requirement];
        let expected = match &alone[0] {
            Requirement::FieldIdsAbsent { .. } => {
                "field ID already exists or is invalid".to_string()
            }
            other => format!("requirement failed: {other:?}"),
        };
        assert!(matches!(
            evaluate(&catalog(), &alone, &shown(&alone)),
            Err(RuntimeError::SemanticConflict(m)) if m == expected
        ));
    }
}

#[test]
fn a_transaction_needs_a_key_and_operations() {
    let mut empty = request(vec![], vec![set("a", "k", "v")]);
    empty.idempotency_key = String::new();
    assert!(matches!(
        prepare(&empty, &None),
        Err(RuntimeError::InvalidTransaction(_))
    ));
    let mut reserved = request(vec![], vec![set("a", "k", "v")]);
    reserved.idempotency_key = "otmp.genesis".to_string();
    assert!(prepare(&reserved, &None).is_err());
    assert!(prepare(&request(vec![], vec![]), &None).is_err());
}

#[test]
fn property_changes_list_their_keys_in_order() {
    let operation = OperationRequest::SetProperties {
        operation_id: "a".to_string(),
        updates: vec![
            Member { key: "a".to_string(), value: text("1") },
            Member { key: "z".to_string(), value: text("2") },
        ],
        removals: vec!["m".to_string()],
    };
    let unset = |key: &str| Requirement::PropertyIs {
        key: key.to_string(),
        value: CanonicalValue::Null,
    };
    let held = vec![unset("a"), unset("m"), unset("z")];
    let results = prepare(&request(held, vec![operation]), &None).unwrap();
    match &results[0] {
        OperationResult::Properties { operation_id, keys } => {
            assert_eq!(operation_id, "a");
            assert_eq!(keys, &vec!["a".to_string(), "m".to_string(), "z".to_string()]);
        }
        other => panic!("{other:?}"),
    }
}

#[test]
fn operations_do_not_claim_a_name_twice() {
    let held = || {
        ["k", "l"]
            .iter()
            .map(|key| Requirement::PropertyIs {
                key: key.to_string(),
                value: CanonicalValue::Null,
            })
            .collect::<Vec<Requirement>>()
    };
    let apart = vec![set("a", "k", "1"), set("b", "l", "2")];
    assert_eq!(prepare(&request(held(), apart), &None).unwrap().len(), 2);
    let twice = vec![set("a", "k", "1"), set("a", "l", "2")];
    assert!(prepare(&request(held(), twice), &None).is_err());
    let same_key = vec![set("a", "k", "1"), set("b", "k", "2")];
    assert!(prepare(&request(held(), same_key), &None).is_err());
}

#[test]
fn refs_are_created_replaced_and_dropped() {
    let create = OperationRequest::CreateRef {
        operation_id: "a".to_string(),
        name: "dev".to_string(),
        ref_type: RefType::Branch,
        snapshot_id: Some(id(1)),
    };
    let absent = Requirement::RefAbsent { name: "dev".to_string() };
    let exists = Requirement::SnapshotExists { snapshot_id: id(1) };
    let transaction = request(vec![absent, exists], vec![create]);
    let results = prepare(&transaction, &None).unwrap();
    assert!(matches!(&results[0], OperationResult::Ref { name, .. } if name == "dev"));
    let changes = apply_operations(&catalog(), &transaction.operations, 5).unwrap();
    assert!(changes.iter().any(|c| matches!(
        c,
        RowChange::InsertRef { name, snapshot_id: Some(s), version: 5, .. }
            if name == "dev" && *s == id(1)
    )));
    assert!(changes.iter().any(|c| matches!(
        c,
        RowChange::AddBranchFiles { name, snapshot_id } if name == "dev" && *snapshot_id == id(1)
    )));

    let drop = OperationRequest::DropRef { operation_id: "a".to_string(), name: "main".to_string() };
    let transaction = request(vec![], vec![drop]);
    assert!(prepare(&transaction, &None).is_err());
}

#[test]
fn schemas_grow_by_optional_fields() {
    let old_schema = schema(1, None, vec![field(1, true)]);
    let new_schema = schema(2, Some(1), vec![field(1, true), field(2, false)]);
    assert_eq!(additive_schema(&old_schema, &new_schema).unwrap(), vec![2]);
    let required = schema(2, Some(1), vec![field(1, true), field(2, true)]);
    assert!(additive_schema(&old_schema, &required).is_err());
    let dropped = schema(2, Some(1), vec![field(2, false)]);
    assert!(additive_schema(&old_schema, &dropped).is_err());
    assert!(additive_schema(&old_schema, &schema(1, None, vec![field(1, true)])).is_err());
}

#[test]
fn the_protocols_own_finding_on_a_schema_is_passed_on() {
    let operation = OperationRequest::AddSchema {
        operation_id: "a".to_string(),
        schema: schema(2, Some(1), vec![field(1, true), field(2, false)]),
    };
    let requirements = vec![
        Requirement::CurrentSchemaIs { schema_id: 1 },
        Requirement::SchemaIdAbsent { schema_id: 2 },
        Requirement::FieldIdsAbsent { field_ids: vec![2] },
    ];
    let transaction = request(requirements, vec![operation]);
    let problem = Some(ProtocolError {
        code: "OTMP_INVALID_SCHEMA".to_string(),
        message: "bad name".to_string(),
    });
    let error = prepare(&transaction, &problem).unwrap_err();
    assert_eq!(error.code(), "OTMP_INVALID_SCHEMA");
    let results = prepare(&transaction, &None).unwrap();
    assert!(matches!(results[0], OperationResult::Schema { schema_id: 2, .. }));
}

#[test]
fn lineages_fall_from_tip_to_root() {
    let rows = catalog().snapshots;
    assert_eq!(ancestry(Walk::Branch, &rows, Some(id(2))).unwrap(), vec![id(2), id(1)]);
    assert!(ancestry(Walk::Branch, &rows, None).unwrap().is_empty());
    let cycle = vec![SnapshotRow {
        snapshot_id: id(1),
        parent_snapshot_id: Some(id(1)),
        sequence_number: 1,
    }];
    let error = ancestry(Walk::History, &cycle, Some(id(1))).unwrap_err();
    assert_eq!(error.message(), "table is corrupt: snapshot ancestry cycle");
    let error = ancestry(Walk::History, &vec![], Some(id(1))).unwrap_err();
    assert_eq!(error.message(), "table is corrupt: dangling snapshot ancestry");
}

#[test]
fn durable_results_are_completed_by_the_state() {
    let durable = DurableResult {
        table_version: 4,
        commit_id: id(3),
        operation_results: vec![],
    };
    let result = durable.with_state(Sha256::digest(b"state"));
    assert_eq!(result.table_version, 4);
    assert_eq!(result.commit_id, id(3));
    assert_eq!(result.semantic_state_sha256, Sha256::digest(b"state"));
}

#[test]
fn members_stand_in_order_of_their_keys() {
    let mut members = with_member(vec![], "b", text("1"));
    put_member(&mut members, "a", CanonicalValue::Integer(i128::from(u64::MAX)));
    put_member(&mut members, "b", text("2"));
    let keys: Vec<&str> = members.iter().map(|m| m.key.as_str()).collect();
    assert_eq!(keys, vec!["a", "b"]);
    assert!(same_value(find_member(&members, "b").unwrap(), &text("2")));
    assert!(find_member(&members, "c").is_none());
    let object = CanonicalValue::Object(members);
    assert!(same_value(&object, &copy_value(&object)));
    assert!(!same_value(&object, &CanonicalValue::Null));
}

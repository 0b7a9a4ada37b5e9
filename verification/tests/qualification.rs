//! Measuring where the time of a write goes.
use otmp::error::RuntimeError;
use otmp::hash::{Id, Sha256};
use otmp::documents::ObjectReference;
use otmp::value::{text, CanonicalValue, Member};
use otmp::transactions::{OperationRequest, Requirement};
use otmp::write_latency_qualification::worker::{
    check_advance, check_fixture, check_mode, check_payload, check_payload_object,
    check_property_bytes, counter, measured_property, property_request, validate_probe,
    verified, FixtureIdentity, WorkerError,
};
use otmp::write_latency_qualification::{
    add_bytes, category, nanos, phase, record_io, skipped_phase, start, Ledger, ObjectIo, Probe,
    QualificationStore,
};

#[test]
fn phases_add_up_to_the_latency() {
    let mut probe = Probe::new();
    let session = start(&mut probe, 100).unwrap();
    assert!(start(&mut probe, 100).is_err());
    let outer = phase(&mut probe, "build", 110);
    let inner = phase(&mut probe, "encode", 115);
    inner.end(&mut probe, 120);
    outer.end(&mut probe, 150);
    add_bytes(&mut probe, "bytes", 10);
    add_bytes(&mut probe, "bytes", 5);
    record_io(&mut probe, "head", 1, 2);
    record_io(&mut probe, "head", 3, 4);
    let report = session.finish(&mut probe, 200).unwrap();
    assert_eq!(report.acknowledged_latency_ns, 100);
    assert_eq!(report.counters.get("bytes"), Some(15));
    assert_eq!(
        report.object_store.get("head"),
        Some(ObjectIo { requests: 2, bytes_read: 4, bytes_written: 6 })
    );
    let top: u64 =
        report.phases.iter().filter(|p| p.depth == 0).map(|p| p.duration_ns).sum();
    assert_eq!(top, report.acknowledged_latency_ns);
    let encode = report.phases.iter().find(|p| p.name == "encode").unwrap();
    assert_eq!((encode.depth, encode.duration_ns), (1, 5));
}

#[test]
fn phases_end_in_the_order_of_their_nesting() {
    let mut probe = Probe::new();
    let session = start(&mut probe, 0).unwrap();
    let outer = phase(&mut probe, "outer", 1);
    let inner = phase(&mut probe, "inner", 2);
    outer.end(&mut probe, 3);
    inner.end(&mut probe, 4);
    assert!(session.finish(&mut probe, 5).is_err());
    let again = start(&mut probe, 6).unwrap();
    again.abandon(&mut probe);
    start(&mut probe, 7).unwrap();
}

#[test]
fn without_a_session_nothing_is_measured() {
    let mut probe = Probe::new();
    phase(&mut probe, "x", 1).end(&mut probe, 2);
    add_bytes(&mut probe, "x", 1);
    let session = start(&mut probe, 10).unwrap();
    skipped_phase(&mut probe, "skipped", 0);
    let report = session.finish(&mut probe, 11).unwrap();
    assert_eq!(report.counters.get("x"), None);
    let skipped = report.phases.iter().find(|p| p.name == "skipped").unwrap();
    assert!(!skipped.performed);
}

#[test]
fn durations_are_capped() {
    assert_eq!(nanos(5), 5);
    assert_eq!(nanos(u128::MAX), u64::MAX);
}

#[test]
fn objects_fall_into_categories() {
    let named = |key: &str| category(&key.to_string());
    assert_eq!(named("_otmp/HEAD"), "head");
    assert_eq!(named("_otmp/commits/1/a.json"), "commit");
    assert_eq!(named("_otmp/page-packs/a"), "page_pack");
    assert_eq!(named("data/a.parquet"), "other");
    assert_eq!(QualificationStore::new(7).store, 7);
}

#[test]
fn ledgers_hold_one_amount_for_each_name() {
    let mut ledger: Ledger<u64> = Ledger::new();
    ledger.put("a", 1);
    ledger.put("a", 2);
    assert_eq!(ledger.len(), 1);
    assert_eq!(ledger.get("a"), Some(2));
    assert_eq!(counter(&ledger, "b"), 0);
    let (name, amount) = ledger.entry(0);
    assert_eq!((name.as_str(), amount), ("a", 2));
}

#[test]
fn a_run_that_misses_a_phase_is_refused() {
    let mut probe = Probe::new();
    let session = start(&mut probe, 0).unwrap();
    let report = session.finish(&mut probe, 1).unwrap();
    assert!(matches!(validate_probe(&report), Err(WorkerError::Probe(_))));
}

#[test]
fn the_workers_arguments_are_checked() {
    check_property_bytes(16777216).unwrap();
    let error = check_property_bytes(16777217).unwrap_err();
    assert!(error.message().contains("property_bytes exceeds 16777216"));
    assert!(!check_mode(&"fresh".to_string()).unwrap());
    assert!(check_mode(&"pre_pinned".to_string()).unwrap());
    assert!(check_mode(&"Fresh".to_string()).is_err());
    check_advance(3, 4).unwrap();
    assert!(check_advance(3, 5).is_err());
    assert_eq!(verified(7).table_version, 7);
}

#[test]
fn the_measured_property_has_its_value() {
    assert_eq!(measured_property(Some(text("measured"))).unwrap(), "measured");
    for wrong in [None, Some(text("other")), Some(CanonicalValue::Bool(true))] {
        assert!(matches!(measured_property(wrong), Err(WorkerError::Fixture(_))));
    }
}

#[test]
fn the_request_sets_a_property_that_was_absent() {
    let request = property_request("key", "name", "op", "value".to_string());
    assert_eq!(request.idempotency_key, "key");
    assert!(matches!(
        &request.requirements[0],
        Requirement::PropertyIs { key, value: CanonicalValue::Null } if key == "name"
    ));
    assert!(matches!(
        &request.operations[0],
        OperationRequest::SetProperties { updates, .. } if updates[0].key == "name"
    ));
}

fn identity(version: u64) -> FixtureIdentity {
    FixtureIdentity {
        property_bytes: 3,
        table_id: Id::from_bytes([1; 16]).to_text(),
        table_version: version,
        generation_id: Id::from_bytes([2; 16]).to_text(),
        head_sha256: Sha256::digest(b"head").to_text(),
        head_bytes: 4,
        logical_image_bytes: 8192,
        checkpoint_bytes: 8192,
        commit_bytes: 10,
        retained_history_verified: true,
    }
}

#[test]
fn fixtures_are_compared_as_a_whole() {
    check_fixture(&identity(1), &identity(1)).unwrap();
    assert!(check_fixture(&identity(1), &identity(2)).is_err());
}

#[test]
fn payload_objects_have_their_digest() {
    let reference = ObjectReference {
        uri: "a".to_string(),
        sha256: Sha256::digest(b"abc"),
        length: Some(3),
        media_type: None,
    };
    check_payload_object(&reference, b"abc").unwrap();
    assert!(check_payload_object(&reference, b"abd").is_err());
    let member = |key: &str, value| Member { key: key.to_string(), value };
    let updates = CanonicalValue::Object(vec![member("qualification.payload", text("xyz"))]);
    let operations = vec![CanonicalValue::Object(vec![member("updates", updates)])];
    check_payload(&operations, 3).unwrap();
    assert!(check_payload(&operations, 4).is_err());
    assert!(check_payload(&vec![], 0).is_err());
}

#[test]
fn runtime_failures_keep_their_code() {
    let error = WorkerError::Runtime(RuntimeError::AlreadyExists);
    assert_eq!(error.output().error.code, "OTMP_ALREADY_EXISTS");
}

#[test]
fn phases_are_listed_as_they_end_and_fill_the_session() {
    let mut probe = Probe::new();
    let session = start(&mut probe, 10).unwrap();
    let outer = phase(&mut probe, "outer", 12);
    let inner = phase(&mut probe, "inner", 13);
    inner.end(&mut probe, 20);
    outer.end(&mut probe, 25);
    skipped_phase(&mut probe, "passed", 0);
    phase(&mut probe, "last", 40).end(&mut probe, 45);
    let report = session.finish(&mut probe, 50).unwrap();
    let names: Vec<&str> = report.phases.iter().map(|p| p.name.as_str()).collect();
    assert_eq!(names, vec!["inner", "outer", "passed", "last"]);
    let top: Vec<u64> =
        report.phases.iter().filter(|p| p.depth == 0).map(|p| p.duration_ns).collect();
    assert_eq!(top, vec![15, 0, 25]);
    assert_eq!(report.acknowledged_latency_ns, 40);
}

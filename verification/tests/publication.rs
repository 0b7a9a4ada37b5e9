//! Publishing heads: retries, rebases and lost answers.
use otmp::error::{ProtocolError, RuntimeError};
use otmp::hash::Sha256;
use otmp::initialize::{Initialization, InitializeAction, InitializePhase};
use otmp::publication::{
    outcome_of, replay, Action, Event, GenesisAction, GenesisPublication, PinFacts, Publication,
    Replay, TransactionRetryPolicy, WriteOutcome,
};
use otmp::schema::Schema;
use otmp::storage::{InMemoryObjectStore, InjectedConditional, StorageError};

fn pinned(replay: Replay, unchanged: bool) -> Event {
    Event::Pinned(PinFacts { same_table: true, replay, unchanged })
}

fn swapping() -> Publication {
    let mut publication = Publication::new(TransactionRetryPolicy::default(), false);
    assert!(matches!(publication.step(pinned(Replay::Absent, true)), Action::Build));
    assert!(matches!(publication.step(Event::Stored), Action::Swap));
    publication
}

#[test]
fn the_default_policy_allows_eight_rebases_and_three_reconciliations() {
    let policy = TransactionRetryPolicy::default();
    assert_eq!(policy.maximum_rebases, 8);
    assert_eq!(policy.maximum_indeterminate_reconciliations, 3);
}

#[test]
fn a_swap_that_applies_is_published() {
    let mut publication = swapping();
    assert!(matches!(
        publication.step(Event::Swapped(WriteOutcome::Applied)),
        Action::Published
    ));
}

#[test]
fn a_request_that_was_committed_before_is_replayed() {
    let mut publication = Publication::new(TransactionRetryPolicy::default(), false);
    assert!(matches!(publication.step(pinned(Replay::Found, true)), Action::Replayed));
    let mut publication = Publication::new(TransactionRetryPolicy::default(), false);
    assert!(matches!(
        publication.step(pinned(Replay::Conflict, true)),
        Action::Fail(RuntimeError::IdempotencyConflict)
    ));
    assert_eq!(replay(None, Sha256::digest(b"a")), Replay::Absent);
    assert_eq!(replay(Some(Sha256::digest(b"a")), Sha256::digest(b"a")), Replay::Found);
    assert_eq!(replay(Some(Sha256::digest(b"b")), Sha256::digest(b"a")), Replay::Conflict);
}

#[test]
fn conflicts_are_rebased_until_the_limit() {
    let mut publication = swapping();
    for _ in 0..8 {
        assert!(matches!(
            publication.step(Event::Swapped(WriteOutcome::Conflict)),
            Action::Pin
        ));
        assert!(matches!(publication.step(pinned(Replay::Absent, false)), Action::Build));
        assert!(matches!(publication.step(Event::Stored), Action::Swap));
    }
    assert!(matches!(publication.step(Event::Swapped(WriteOutcome::Conflict)), Action::Pin));
    assert!(matches!(
        publication.step(pinned(Replay::Absent, false)),
        Action::Fail(RuntimeError::RebaseExhausted)
    ));
}

#[test]
fn lost_answers_are_reconciled_and_then_reported() {
    let mut publication = swapping();
    for _ in 0..3 {
        assert!(matches!(
            publication.step(Event::Swapped(WriteOutcome::Indeterminate)),
            Action::Pin
        ));
        assert!(matches!(publication.step(pinned(Replay::Absent, true)), Action::Swap));
    }
    assert!(matches!(
        publication.step(Event::Swapped(WriteOutcome::Indeterminate)),
        Action::Pin
    ));
    assert!(matches!(
        publication.step(pinned(Replay::Absent, true)),
        Action::Fail(RuntimeError::PublicationIndeterminate)
    ));
    assert!(!publication.removes_staged(true));
}

#[test]
fn a_lost_answer_that_was_applied_is_found_again() {
    let mut publication = swapping();
    assert!(matches!(
        publication.step(Event::Swapped(WriteOutcome::Indeterminate)),
        Action::Pin
    ));
    assert!(matches!(publication.step(pinned(Replay::Found, false)), Action::Replayed));
}

#[test]
fn another_table_under_the_head_is_a_conflict() {
    let mut publication = Publication::new(TransactionRetryPolicy::default(), false);
    let facts = PinFacts { same_table: false, replay: Replay::Absent, unchanged: false };
    assert!(matches!(
        publication.step(Event::Pinned(facts)),
        Action::Fail(RuntimeError::SemanticConflict(_))
    ));
}

#[test]
fn a_failed_build_removes_what_it_staged() {
    let mut publication = Publication::new(TransactionRetryPolicy::default(), false);
    assert!(matches!(publication.step(pinned(Replay::Absent, true)), Action::Build));
    let failure = RuntimeError::InvalidAppend("x".to_string());
    assert!(matches!(publication.step(Event::BuildFailed(failure)), Action::Fail(_)));
    assert!(publication.removes_staged(true));
    assert!(!publication.removes_staged(false));
}

#[test]
fn a_first_head_is_written_once() {
    let mut genesis = GenesisPublication::new(TransactionRetryPolicy::default());
    assert!(matches!(genesis.written(WriteOutcome::Applied), GenesisAction::Done));
    assert!(matches!(genesis.written(WriteOutcome::Conflict), GenesisAction::ReadHead));
    assert!(matches!(genesis.read(Ok(true)), GenesisAction::Done));
    assert!(matches!(
        genesis.read(Ok(false)),
        GenesisAction::Fail(RuntimeError::AlreadyExists)
    ));
    assert!(matches!(
        genesis.read(Err(StorageError::Io("x".to_string()))),
        GenesisAction::Fail(RuntimeError::Storage(_))
    ));
}

#[test]
fn a_first_head_in_doubt_is_written_again() {
    let mut genesis = GenesisPublication::new(TransactionRetryPolicy::default());
    let missing = || Err(StorageError::NotFound("_otmp/HEAD".to_string()));
    for _ in 0..3 {
        assert!(matches!(
            genesis.written(WriteOutcome::Indeterminate),
            GenesisAction::ReadHead
        ));
        assert!(matches!(genesis.read(missing()), GenesisAction::CreateHead));
    }
    assert!(matches!(genesis.written(WriteOutcome::Indeterminate), GenesisAction::ReadHead));
    assert!(matches!(
        genesis.read(missing()),
        GenesisAction::Fail(RuntimeError::PublicationIndeterminate)
    ));
}

#[test]
fn a_table_is_begun_once() {
    let head = "_otmp/HEAD".to_string();
    for fault in [None, Some(InjectedConditional::IndeterminateBefore)] {
        let mut store = InMemoryObjectStore::new();
        let mut first = GenesisPublication::new(TransactionRetryPolicy::default());
        assert!(matches!(
            first.written(outcome_of(&store.create_head(b"first"))),
            GenesisAction::Done
        ));
        if let Some(fault) = fault {
            store.inject_conditional(fault);
        }
        let mut second = GenesisPublication::new(TransactionRetryPolicy::default());
        assert!(matches!(
            second.written(outcome_of(&store.create_head(b"second"))),
            GenesisAction::ReadHead
        ));
        let read = store.read(&head).map(|object| object.bytes == b"second");
        assert!(matches!(
            second.read(read),
            GenesisAction::Fail(RuntimeError::AlreadyExists)
        ));
        assert_eq!(store.read(&head).unwrap().bytes, b"first");
    }
}

fn first_schema() -> Schema {
    Schema {
        schema_id: 1,
        parent_schema_id: None,
        doc: None,
        fields: vec![],
        identifier_field_ids: vec![],
    }
}

fn ready() -> Initialization {
    let mut making = Initialization::new(TransactionRetryPolicy::default());
    assert!(matches!(making.begin(None, &first_schema()), InitializeAction::Prepare));
    assert!(matches!(making.prepared(Ok(())), InitializeAction::Store));
    assert!(matches!(making.stored(Ok(())), InitializeAction::CreateHead));
    making
}

#[test]
fn a_table_is_made_step_by_step() {
    let mut store = InMemoryObjectStore::new();
    let mut making = ready();
    let outcome = outcome_of(&store.create_head(b"first"));
    assert!(matches!(making.written(outcome), InitializeAction::Done));
    assert_eq!(making.phase, InitializePhase::Finished);
    let mut again = ready();
    let outcome = outcome_of(&store.create_head(b"second"));
    assert!(matches!(again.written(outcome), InitializeAction::ReadHead));
    let read = store.read(&"_otmp/HEAD".to_string()).map(|object| object.bytes == b"second");
    assert!(matches!(
        again.read(read),
        InitializeAction::Fail(RuntimeError::AlreadyExists)
    ));
    assert_eq!(store.read(&"_otmp/HEAD".to_string()).unwrap().bytes, b"first");
}

#[test]
fn a_first_head_whose_answer_was_lost_is_found() {
    let mut store = InMemoryObjectStore::new();
    store.inject_conditional(InjectedConditional::IndeterminateAfter);
    let mut making = ready();
    let outcome = outcome_of(&store.create_head(b"first"));
    assert!(matches!(making.written(outcome), InitializeAction::ReadHead));
    let read = store.read(&"_otmp/HEAD".to_string()).map(|object| object.bytes == b"first");
    assert!(matches!(making.read(read), InitializeAction::Done));
    let mut absent = ready();
    assert!(matches!(
        absent.written(WriteOutcome::Indeterminate),
        InitializeAction::ReadHead
    ));
    let missing = Err(StorageError::NotFound("_otmp/HEAD".to_string()));
    assert!(matches!(absent.read(missing), InitializeAction::CreateHead));
    assert_eq!(absent.phase, InitializePhase::Write);
}

#[test]
fn a_table_is_not_made_from_a_later_schema() {
    let mut making = Initialization::new(TransactionRetryPolicy::default());
    let later = Schema { schema_id: 2, ..first_schema() };
    assert!(matches!(
        making.begin(None, &later),
        InitializeAction::Fail(RuntimeError::InvalidInitialize(_))
    ));
    assert_eq!(making.phase, InitializePhase::Finished);
    let mut making = Initialization::new(TransactionRetryPolicy::default());
    let problem =
        ProtocolError { code: "OTMP_INVALID_SCHEMA".to_string(), message: "bad".to_string() };
    assert!(matches!(
        making.begin(Some(problem), &later),
        InitializeAction::Fail(RuntimeError::Protocol(p)) if p.message == "bad"
    ));
    let mut making = Initialization::new(TransactionRetryPolicy::default());
    assert!(matches!(making.begin(None, &first_schema()), InitializeAction::Prepare));
    assert!(matches!(
        making.prepared(Err(RuntimeError::Corrupt("x".to_string()))),
        InitializeAction::Fail(RuntimeError::Corrupt(_))
    ));
    let mut making = Initialization::new(TransactionRetryPolicy::default());
    assert!(matches!(making.begin(None, &first_schema()), InitializeAction::Prepare));
    assert!(matches!(making.prepared(Ok(())), InitializeAction::Store));
    assert!(matches!(
        making.stored(Err(RuntimeError::Storage(StorageError::Io("x".to_string())))),
        InitializeAction::Fail(RuntimeError::Storage(_))
    ));
}

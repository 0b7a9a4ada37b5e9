//! Preparing a measured table, and judging one measured write.
use crate::documents::{Generation, Head, ObjectReference, SemanticCommit};
use crate::error::{
    error_code, error_message, error_retryable, ErrorView, ProtocolError, RuntimeError,
};
use crate::hash::{hex_text, id_text, sha256_of, Sha256};
use crate::storage::{
    storage_error_code, storage_error_message, storage_error_retryable, StorageError,
    StorageErrorView,
};
use crate::text::{append_decimal, byte_length, decimal, joined, reads, utf8_length};
use crate::transactions::{OperationRequest, Requirement, RequirementView, TransactionRequest};
use crate::value::{
    find_member, lemma_values_view, member_of, value_view, values_view, CanonicalValue, Member,
    ValueView,
};
use crate::write_latency_qualification::{
    phases_view, top_total, Ledger, PhaseMeasurement, PhaseView, ProbeError, ProbeReport,
};
use vstd::prelude::*;

verus! {

/// The largest payload of a measured table.
pub const MAX_PROPERTY_BYTES: usize = 16777216;

/// What can go wrong in a measurement.
#[derive(Debug)]
pub enum WorkerError {
    Config(String),
    Fixture(String),
    Io(String),
    Json(String),
    Protocol(ProtocolError),
    Runtime(RuntimeError),
    Storage(StorageError),
    Probe(ProbeError),
}

pub enum WorkerErrorView {
    Config(Seq<char>),
    Fixture(Seq<char>),
    Io(Seq<char>),
    Json(Seq<char>),
    Protocol(Seq<char>, Seq<char>),
    Runtime(ErrorView),
    Storage(StorageErrorView),
    Probe(Seq<char>),
}

impl View for WorkerError {
    type V = WorkerErrorView;

    open spec fn view(&self) -> WorkerErrorView {
        match *self {
            WorkerError::Config(m) => WorkerErrorView::Config(m@),
            WorkerError::Fixture(m) => WorkerErrorView::Fixture(m@),
            WorkerError::Io(m) => WorkerErrorView::Io(m@),
            WorkerError::Json(m) => WorkerErrorView::Json(m@),
            WorkerError::Protocol(e) => WorkerErrorView::Protocol(e.code@, e.message@),
            WorkerError::Runtime(e) => WorkerErrorView::Runtime(e@),
            WorkerError::Storage(e) => WorkerErrorView::Storage(e@),
            WorkerError::Probe(e) => WorkerErrorView::Probe(e.message@),
        }
    }
}

/// A failure as it is printed.
#[derive(Debug)]
pub struct FailureOutput {
    pub ok: bool,
    pub error: Failure,
}

#[derive(Debug)]
pub struct Failure {
    pub code: String,
    pub message: String,
    pub retryable: bool,
}

pub open spec fn worker_code(e: WorkerErrorView) -> Seq<char> {
    match e {
        WorkerErrorView::Runtime(e) => error_code(e),
        WorkerErrorView::Storage(e) => storage_error_code(e),
        WorkerErrorView::Config(_) => "OTMP_QUALIFICATION_CONFIG"@,
        WorkerErrorView::Fixture(_) => "OTMP_QUALIFICATION_FIXTURE"@,
        WorkerErrorView::Probe(_) => "OTMP_QUALIFICATION_PROBE"@,
        WorkerErrorView::Io(_) => "OTMP_IO_ERROR"@,
        WorkerErrorView::Json(_) | WorkerErrorView::Protocol(_, _) => "OTMP_QUALIFICATION_FORMAT"@,
    }
}

pub open spec fn worker_message(e: WorkerErrorView) -> Seq<char> {
    match e {
        WorkerErrorView::Config(m) => "configuration is invalid: "@ + m,
        WorkerErrorView::Fixture(m) => "fixture is invalid: "@ + m,
        WorkerErrorView::Io(m) => m,
        WorkerErrorView::Json(m) => m,
        WorkerErrorView::Protocol(_, m) => m,
        WorkerErrorView::Runtime(e) => error_message(e),
        WorkerErrorView::Storage(e) => storage_error_message(e),
        WorkerErrorView::Probe(m) => m,
    }
}

pub open spec fn worker_retryable(e: WorkerErrorView) -> bool {
    match e {
        WorkerErrorView::Runtime(e) => error_retryable(e),
        WorkerErrorView::Storage(e) => storage_error_retryable(e),
        _ => false,
    }
}

impl WorkerError {
    /// What went wrong, in words.
    pub fn message(&self) -> (message: String)
        ensures
            message@ == worker_message(self@),
    {
        match self {
            WorkerError::Config(m) => joined("configuration is invalid: ", m.as_str()),
            WorkerError::Fixture(m) => joined("fixture is invalid: ", m.as_str()),
            WorkerError::Io(m) => m.clone(),
            WorkerError::Json(m) => m.clone(),
            WorkerError::Protocol(e) => e.message.clone(),
            WorkerError::Runtime(e) => e.message(),
            WorkerError::Storage(e) => e.message(),
            WorkerError::Probe(e) => e.message.clone(),
        }
    }

    /// The failure as it is printed.
    pub fn output(&self) -> (output: FailureOutput)
        ensures
            !output.ok,
            output.error.code@ == worker_code(self@),
            output.error.message@ == worker_message(self@),
            output.error.retryable == worker_retryable(self@),
    {
        let (code, retryable): (String, bool) = match self {
            WorkerError::Runtime(e) => (e.code().to_owned(), e.retryable()),
            WorkerError::Storage(e) => (e.code().to_owned(), e.retryable()),
            WorkerError::Config(_) => ("OTMP_QUALIFICATION_CONFIG".to_owned(), false),
            WorkerError::Fixture(_) => ("OTMP_QUALIFICATION_FIXTURE".to_owned(), false),
            WorkerError::Probe(_) => ("OTMP_QUALIFICATION_PROBE".to_owned(), false),
            WorkerError::Io(_) => ("OTMP_IO_ERROR".to_owned(), false),
            WorkerError::Json(_) => ("OTMP_QUALIFICATION_FORMAT".to_owned(), false),
            WorkerError::Protocol(_) => ("OTMP_QUALIFICATION_FORMAT".to_owned(), false),
        };
        FailureOutput { ok: false, error: Failure { code, message: self.message(), retryable } }
    }
}

fn fixture(message: &str) -> (e: WorkerError)
    ensures
        e@ == WorkerErrorView::Fixture(message@),
{
    WorkerError::Fixture(message.to_owned())
}

fn probe_error(message: String) -> (e: WorkerError)
    ensures
        e@ == WorkerErrorView::Probe(message@),
{
    WorkerError::Probe(ProbeError { message })
}

// ------------------------------------------------------------ configuration

/// Checks the payload that a table is to be prepared with.
pub fn check_property_bytes(property_bytes: usize) -> (r: Result<(), WorkerError>)
    ensures
        match r {
            Ok(()) => property_bytes <= MAX_PROPERTY_BYTES,
            Err(e) => {
                &&& property_bytes > MAX_PROPERTY_BYTES
                &&& e@ == WorkerErrorView::Config("property_bytes exceeds 16777216"@)
            },
        },
{
    if property_bytes > MAX_PROPERTY_BYTES {
        return Err(WorkerError::Config("property_bytes exceeds 16777216".to_owned()));
    }
    Ok(())
}

/// Whether the table is pinned before the measurement starts.
pub fn check_mode(mode: &String) -> (r: Result<bool, WorkerError>)
    ensures
        match r {
            Ok(pinned) => if pinned {
                mode@ == "pre_pinned"@
            } else {
                mode@ == "fresh"@
            },
            Err(e) => {
                &&& mode@ != "fresh"@ && mode@ != "pre_pinned"@
                &&& e@ == WorkerErrorView::Config("mode must be exactly fresh or pre_pinned"@)
            },
        },
{
    if reads(mode, "fresh") {
        return Ok(false);
    }
    if reads(mode, "pre_pinned") {
        return Ok(true);
    }
    Err(WorkerError::Config("mode must be exactly fresh or pre_pinned".to_owned()))
}

/// A request that sets a property which is absent.
pub fn property_request(key: &str, property: &str, operation: &str, value: String) -> (request:
    TransactionRequest)
    ensures
        request.idempotency_key@ == key@,
        request.requirements@.len() == 1,
        request.requirements@[0]@ == RequirementView::PropertyIs(property@, ValueView::Null),
        request.operations@.len() == 1,
        request.operations@[0] matches OperationRequest::SetProperties {
            operation_id,
            updates,
            removals,
        } && {
            &&& operation_id@ == operation@
            &&& updates@.len() == 1
            &&& updates@[0].key@ == property@
            &&& updates@[0].value@ == ValueView::Text(value@)
            &&& removals@.len() == 0
        },
        request.commit_metadata@.len() == 0,
{
    let mut requirements: Vec<Requirement> = Vec::new();
    requirements.push(
        Requirement::PropertyIs { key: property.to_owned(), value: CanonicalValue::Null },
    );
    let mut updates: Vec<Member> = Vec::new();
    updates.push(Member { key: property.to_owned(), value: CanonicalValue::Text(value) });
    let mut operations: Vec<OperationRequest> = Vec::new();
    operations.push(
        OperationRequest::SetProperties {
            operation_id: operation.to_owned(),
            updates,
            removals: Vec::new(),
        },
    );
    TransactionRequest {
        idempotency_key: key.to_owned(),
        requirements,
        operations,
        commit_metadata: Vec::new(),
    }
}

// ----------------------------------------------------------------- fixtures

/// What tells a prepared table from any other.
#[derive(Debug)]
pub struct FixtureIdentity {
    pub property_bytes: usize,
    pub table_id: String,
    pub table_version: u64,
    pub generation_id: String,
    pub head_sha256: String,
    pub head_bytes: u64,
    pub logical_image_bytes: u64,
    pub checkpoint_bytes: u64,
    pub commit_bytes: u64,
    pub retained_history_verified: bool,
}

pub struct IdentityView {
    pub property_bytes: usize,
    pub table_id: Seq<char>,
    pub table_version: u64,
    pub generation_id: Seq<char>,
    pub head_sha256: Seq<char>,
    pub head_bytes: u64,
    pub logical_image_bytes: u64,
    pub checkpoint_bytes: u64,
    pub commit_bytes: u64,
    pub retained_history_verified: bool,
}

impl View for FixtureIdentity {
    type V = IdentityView;

    open spec fn view(&self) -> IdentityView {
        IdentityView {
            property_bytes: self.property_bytes,
            table_id: self.table_id@,
            table_version: self.table_version,
            generation_id: self.generation_id@,
            head_sha256: self.head_sha256@,
            head_bytes: self.head_bytes,
            logical_image_bytes: self.logical_image_bytes,
            checkpoint_bytes: self.checkpoint_bytes,
            commit_bytes: self.commit_bytes,
            retained_history_verified: self.retained_history_verified,
        }
    }
}

/// Checks that a table is the one that was prepared.
pub fn check_fixture(actual: &FixtureIdentity, expected: &FixtureIdentity) -> (r: Result<
    (),
    WorkerError,
>)
    ensures
        match r {
            Ok(()) => actual@ == expected@,
            Err(e) => {
                &&& actual@ != expected@
                &&& e@ == WorkerErrorView::Fixture(
                    "fixture identity differs from its prepared manifest"@,
                )
            },
        },
{
    let texts = actual.table_id == expected.table_id && actual.generation_id
        == expected.generation_id && actual.head_sha256 == expected.head_sha256;
    if !texts || actual.property_bytes != expected.property_bytes || actual.table_version
        != expected.table_version || actual.head_bytes != expected.head_bytes
        || actual.logical_image_bytes != expected.logical_image_bytes || actual.checkpoint_bytes
        != expected.checkpoint_bytes || actual.commit_bytes != expected.commit_bytes
        || actual.retained_history_verified != expected.retained_history_verified {
        return Err(fixture("fixture identity differs from its prepared manifest"));
    }
    Ok(())
}

/// Whether bytes are the object that a reference names, length included.
pub open spec fn is_object(reference: ObjectReference, bytes: Seq<u8>) -> bool {
    sha256_of(bytes) == reference.sha256@ && reference.length == Some(bytes.len() as u64)
}

fn same_object(reference: &ObjectReference, bytes: &[u8]) -> (same: bool)
    ensures
        same == is_object(*reference, bytes@),
{
    let length: bool = match reference.length {
        Some(n) => n == bytes.len() as u64,
        None => false,
    };
    length && reference.sha256.matches(bytes)
}

/// Checks the generation and the commit that a head names.
pub fn check_head_objects(head: &Head, generation: &[u8], commit: &[u8]) -> (r: Result<
    (),
    WorkerError,
>)
    ensures
        match r {
            Ok(()) => is_object(head.metadata_generation, generation@) && is_object(
                head.semantic_commit,
                commit@,
            ),
            Err(e) => if !is_object(head.metadata_generation, generation@) {
                e@ == WorkerErrorView::Fixture("generation identity differs from HEAD"@)
            } else {
                &&& !is_object(head.semantic_commit, commit@)
                &&& e@ == WorkerErrorView::Fixture("commit identity differs from HEAD"@)
            },
        },
{
    if !same_object(&head.metadata_generation, generation) {
        return Err(fixture("generation identity differs from HEAD"));
    }
    if !same_object(&head.semantic_commit, commit) {
        return Err(fixture("commit identity differs from HEAD"));
    }
    Ok(())
}

/// The commit that set the payload: the one before the last.
pub fn payload_reference(commit: &SemanticCommit) -> (r: Result<&ObjectReference, WorkerError>)
    ensures
        match r {
            Ok(reference) => commit.parent_commit == Some(*reference),
            Err(e) => commit.parent_commit is None && e@ == WorkerErrorView::Fixture(
                "fixture has no payload commit"@,
            ),
        },
{
    match &commit.parent_commit {
        None => Err(fixture("fixture has no payload commit")),
        Some(reference) => Ok(reference),
    }
}

/// Checks the commit that set the payload.
pub fn check_payload_object(reference: &ObjectReference, bytes: &[u8]) -> (r: Result<
    (),
    WorkerError,
>)
    ensures
        match r {
            Ok(()) => is_object(*reference, bytes@),
            Err(e) => {
                &&& !is_object(*reference, bytes@)
                &&& e@ == WorkerErrorView::Fixture(
                    "payload commit identity differs from the retained reference"@,
                )
            },
        },
{
    if !same_object(reference, bytes) {
        return Err(fixture("payload commit identity differs from the retained reference"));
    }
    Ok(())
}

/// The payload that an operation sets.
pub open spec fn payload_of(operation: ValueView) -> Option<Seq<char>> {
    match operation {
        ValueView::Object(members) => match member_of(members, "updates"@) {
            Some(ValueView::Object(updates)) => match member_of(updates, "qualification.payload"@) {
                Some(ValueView::Text(text)) => Some(text),
                _ => None,
            },
            _ => None,
        },
        _ => None,
    }
}

/// The payload of the first operation that sets one.
pub open spec fn first_payload(operations: Seq<ValueView>) -> Option<Seq<char>>
    decreases operations.len(),
{
    if operations.len() == 0 {
        None
    } else if payload_of(operations[0]) is Some {
        payload_of(operations[0])
    } else {
        first_payload(operations.skip(1))
    }
}

fn payload(operation: &CanonicalValue) -> (text: Option<&String>)
    ensures
        match text {
            Some(text) => payload_of(operation@) == Some(text@),
            None => payload_of(operation@) is None,
        },
{
    match operation {
        CanonicalValue::Object(members) => match find_member(members, "updates") {
            Some(CanonicalValue::Object(updates)) => match find_member(
                updates,
                "qualification.payload",
            ) {
                Some(CanonicalValue::Text(text)) => Some(text),
                _ => None,
            },
            _ => None,
        },
        _ => None,
    }
}

/// Checks the size of the payload that a commit set.
pub fn check_payload(operations: &Vec<CanonicalValue>, property_bytes: usize) -> (r: Result<
    (),
    WorkerError,
>)
    ensures
        match r {
            Ok(()) => first_payload(values_view(operations@)) matches Some(text) && utf8_length(
                text,
            ) == property_bytes,
            Err(e) => match first_payload(values_view(operations@)) {
                None => e@ == WorkerErrorView::Fixture("fixture payload property is absent"@),
                Some(text) => {
                    &&& utf8_length(text) != property_bytes
                    &&& e@ == WorkerErrorView::Fixture(
                        "fixture payload size differs from its prepared manifest"@,
                    )
                },
            },
        },
{
    let ghost all = values_view(operations@);
    proof {
        lemma_values_view(operations@);
        assert(all.skip(0) =~= all);
    }
    let mut i: usize = 0;
    while i < operations.len()
        invariant
            i <= operations@.len(),
            all == values_view(operations@),
            all.len() == operations@.len(),
            forall|j: int| 0 <= j < all.len() ==> #[trigger] all[j] == value_view(&operations@[j]),
            first_payload(all) == first_payload(all.skip(i as int)),
        decreases operations@.len() - i,
    {
        proof {
            assert(all.skip(i as int)[0] == all[i as int]);
            assert(all.skip(i as int).skip(1) =~= all.skip(i + 1));
            assert(all[i as int] == value_view(&operations@[i as int]));
        }
        if let Some(text) = payload(&operations[i]) {
            if byte_length(text.as_str()) != property_bytes as u128 {
                return Err(fixture("fixture payload size differs from its prepared manifest"));
            }
            return Ok(());
        }
        i = i + 1;
    }
    Err(fixture("fixture payload property is absent"))
}

/// The identity of a table whose objects have been checked.
pub fn identity(
    property_bytes: usize,
    retained_history_verified: bool,
    head: &Head,
    head_bytes: &[u8],
    generation: &Generation,
    commit_bytes: usize,
) -> (r: Result<FixtureIdentity, WorkerError>)
    ensures
        ({
            let image = generation.metadata_image;
            match r {
                Ok(identity) => identity@ == (IdentityView {
                    property_bytes,
                    table_id: id_text(head.table_id@),
                    table_version: head.table_version,
                    generation_id: id_text(generation.generation_id@),
                    head_sha256: hex_text(sha256_of(head_bytes@)),
                    head_bytes: head_bytes@.len() as u64,
                    logical_image_bytes: (image.page_count * image.page_size) as u64,
                    checkpoint_bytes: image.checkpoint.length,
                    commit_bytes: commit_bytes as u64,
                    retained_history_verified,
                }) && image.page_count * image.page_size <= u64::MAX,
                Err(e) => {
                    &&& image.page_count * image.page_size > u64::MAX
                    &&& e@ == WorkerErrorView::Fixture("logical image size overflow"@)
                },
            }
        }),
{
    let image = &generation.metadata_image;
    let pages: u128 = image.page_count as u128;
    let size: u128 = image.page_size as u128;
    assert(pages * size <= 0xffff_ffff_ffff_ffff * 0xffff_ffff) by (nonlinear_arith)
        requires
            pages <= 0xffff_ffff_ffff_ffff,
            size <= 0xffff_ffff,
    ;
    assert(0 <= pages * size) by (nonlinear_arith);
    let logical: u128 = pages * size;
    if logical > u64::MAX as u128 {
        return Err(fixture("logical image size overflow"));
    }
    Ok(
        FixtureIdentity {
            property_bytes,
            table_id: head.table_id.to_text(),
            table_version: head.table_version,
            generation_id: generation.generation_id.to_text(),
            head_sha256: Sha256::digest(head_bytes).to_text(),
            head_bytes: head_bytes.len() as u64,
            logical_image_bytes: logical as u64,
            checkpoint_bytes: image.checkpoint.length,
            commit_bytes: commit_bytes as u64,
            retained_history_verified,
        },
    )
}

/// What checking a table again gives.
#[derive(Debug)]
pub struct VerifyOutput {
    pub ok: bool,
    pub table_version: u64,
    pub retained_history_verified: bool,
}

/// What checking a table again gives, once its history has been verified.
pub fn verified(table_version: u64) -> (output: VerifyOutput)
    ensures
        output == (VerifyOutput { ok: true, table_version, retained_history_verified: true }),
{
    VerifyOutput { ok: true, table_version, retained_history_verified: true }
}

// -------------------------------------------------------------- the measure

/// The phases that a measured write has to go through, each once.
pub open spec fn required_phases() -> Seq<Seq<char>> {
    seq![
        "parent_pin"@,
        "idempotency"@,
        "candidate_build"@,
        "immutable_publication"@,
        "head_cas"@,
        "generation_resolution"@,
        "logical_image_materialization"@,
        "parent_validation"@,
        "operation_preparation"@,
        "turso_open"@,
        "turso_sql"@,
        "turso_checkpoint_freeze"@,
        "candidate_buffer_creation"@,
        "validation_file_write"@,
        "exhaustive_validation"@,
        "page_pack_page_map_construction"@,
        "commit_projection_validation"@,
    ]
}

/// The first of the required phases are the top level.
pub const TOP_PHASES: usize = 5;

fn required_names() -> (names: [&'static str; 17])
    ensures
        forall|i: int| 0 <= i < 17 ==> (#[trigger] names@[i])@ == required_phases()[i],
{
    [
        "parent_pin",
        "idempotency",
        "candidate_build",
        "immutable_publication",
        "head_cas",
        "generation_resolution",
        "logical_image_materialization",
        "parent_validation",
        "operation_preparation",
        "turso_open",
        "turso_sql",
        "turso_checkpoint_freeze",
        "candidate_buffer_creation",
        "validation_file_write",
        "exhaustive_validation",
        "page_pack_page_map_construction",
        "commit_projection_validation",
    ]
}

/// How often a phase was measured.
pub open spec fn times_measured(phases: Seq<PhaseView>, name: Seq<char>) -> nat
    decreases phases.len(),
{
    if phases.len() == 0 {
        0
    } else {
        times_measured(phases.drop_last(), name) + (if phases.last().name == name {
            1nat
        } else {
            0
        })
    }
}

/// The first of the names that was not measured exactly once.
pub open spec fn first_missing(phases: Seq<PhaseView>, names: Seq<Seq<char>>) -> Option<Seq<char>>
    decreases names.len(),
{
    if names.len() == 0 {
        None
    } else if times_measured(phases, names[0]) != 1 {
        Some(names[0])
    } else {
        first_missing(phases, names.skip(1))
    }
}

/// A phase was measured at the top level.
pub open spec fn at_top(phases: Seq<PhaseView>, name: Seq<char>) -> bool {
    exists|i: int|
        0 <= i < phases.len() && (#[trigger] phases[i]).name == name && phases[i].depth == 0
}

/// The phases of the top level are exactly the ones that have to be there.
pub open spec fn top_complete(phases: Seq<PhaseView>) -> bool {
    &&& forall|k: int| 0 <= k < TOP_PHASES ==> at_top(phases, #[trigger] required_phases()[k])
    &&& forall|i: int|
        0 <= i < phases.len() && (#[trigger] phases[i]).depth == 0 ==> exists|k: int|
            0 <= k < TOP_PHASES && phases[i].name == #[trigger] required_phases()[k]
}

pub open spec fn missing_message(name: Seq<char>) -> Seq<char> {
    "required phase "@ + name + " was not recorded exactly once"@
}

fn count_measured(phases: &Vec<PhaseMeasurement>, name: &str) -> (n: usize)
    ensures
        n == times_measured(phases_view(phases@), name@),
{
    let ghost all = phases_view(phases@);
    let mut n: usize = 0;
    let mut i: usize = 0;
    while i < phases.len()
        invariant
            i <= phases@.len(),
            n <= i,
            all == phases_view(phases@),
            n == times_measured(all.take(i as int), name@),
        decreases phases@.len() - i,
    {
        proof {
            assert(all.take(i + 1).drop_last() =~= all.take(i as int));
            assert(all.take(i + 1).last() == phases@[i as int]@);
        }
        if reads(&phases[i].name, name) {
            n = n + 1;
        }
        i = i + 1;
    }
    assert(all.take(i as int) =~= all);
    n
}

fn is_at_top(phases: &Vec<PhaseMeasurement>, name: &str) -> (found: bool)
    ensures
        found == at_top(phases_view(phases@), name@),
{
    let ghost all = phases_view(phases@);
    let mut i: usize = 0;
    while i < phases.len()
        invariant
            i <= phases@.len(),
            all == phases_view(phases@),
            forall|j: int| 0 <= j < i ==> !((#[trigger] all[j]).name == name@ && all[j].depth == 0),
        decreases phases@.len() - i,
    {
        assert(all[i as int] == phases@[i as int]@);
        if reads(&phases[i].name, name) && phases[i].depth == 0 {
            return true;
        }
        i = i + 1;
    }
    false
}

/// Checks that every phase of a write was measured, and the top level in full.
pub fn validate_probe(probe: &ProbeReport) -> (r: Result<(), WorkerError>)
    ensures
        ({
            let phases = phases_view(probe.phases@);
            match r {
                Ok(()) => first_missing(phases, required_phases()) is None && top_complete(phases),
                Err(e) => match first_missing(phases, required_phases()) {
                    Some(name) => e@ == WorkerErrorView::Probe(missing_message(name)),
                    None => {
                        &&& !top_complete(phases)
                        &&& e@ == WorkerErrorView::Probe(
                            "top-level phases are incomplete or overlap"@,
                        )
                    },
                },
            }
        }),
{
    let names = required_names();
    let ghost phases = phases_view(probe.phases@);
    let ghost wanted = required_phases();
    assert(wanted.skip(0) =~= wanted);
    let mut k: usize = 0;
    while k < 17
        invariant
            k <= 17,
            phases == phases_view(probe.phases@),
            wanted == required_phases(),
            wanted.len() == 17,
            forall|i: int| 0 <= i < 17 ==> (#[trigger] names@[i])@ == wanted[i],
            first_missing(phases, wanted) == first_missing(phases, wanted.skip(k as int)),
        decreases 17 - k,
    {
        proof {
            assert(wanted.skip(k as int)[0] == wanted[k as int]);
            assert(wanted.skip(k as int).skip(1) =~= wanted.skip(k + 1));
            assert(names@[k as int]@ == wanted[k as int]);
        }
        if count_measured(&probe.phases, names[k]) != 1 {
            let mut message = joined("required phase ", names[k]);
            message.append(" was not recorded exactly once");
            return Err(probe_error(message));
        }
        k = k + 1;
    }
    let mut k: usize = 0;
    while k < TOP_PHASES
        invariant
            k <= TOP_PHASES,
            phases == phases_view(probe.phases@),
            wanted == required_phases(),
            wanted.len() == 17,
            forall|i: int| 0 <= i < 17 ==> (#[trigger] names@[i])@ == wanted[i],
            first_missing(phases, wanted) is None,
            forall|i: int| 0 <= i < k ==> at_top(phases, #[trigger] wanted[i]),
        decreases TOP_PHASES - k,
    {
        assert(names@[k as int]@ == wanted[k as int]);
        if !is_at_top(&probe.phases, names[k]) {
            assert(!at_top(phases, wanted[k as int]));
            return Err(
                probe_error("top-level phases are incomplete or overlap".to_owned()),
            );
        }
        k = k + 1;
    }
    let mut i: usize = 0;
    while i < probe.phases.len()
        invariant
            i <= probe.phases@.len(),
            phases == phases_view(probe.phases@),
            wanted == required_phases(),
            wanted.len() == 17,
            forall|i: int| 0 <= i < 17 ==> (#[trigger] names@[i])@ == wanted[i],
            first_missing(phases, wanted) is None,
            forall|j: int|
                0 <= j < i && (#[trigger] phases[j]).depth == 0 ==> exists|k: int|
                    0 <= k < TOP_PHASES && phases[j].name == #[trigger] wanted[k],
        decreases probe.phases@.len() - i,
    {
        let phase = &probe.phases[i];
        assert(phases[i as int] == phase@);
        assert(names@[0]@ == wanted[0] && names@[1]@ == wanted[1] && names@[2]@ == wanted[2]
            && names@[3]@ == wanted[3] && names@[4]@ == wanted[4]);
        if phase.depth == 0 && !reads(&phase.name, names[0]) && !reads(&phase.name, names[1])
            && !reads(&phase.name, names[2]) && !reads(&phase.name, names[3]) && !reads(
            &phase.name,
            names[4],
        ) {
            assert(forall|k: int|
                0 <= k < TOP_PHASES ==> phases[i as int].name != #[trigger] wanted[k]);
            return Err(
                probe_error("top-level phases are incomplete or overlap".to_owned()),
            );
        }
        i = i + 1;
    }
    Ok(())
}

/// The amount of a counter, and none where there is no such counter.
pub open spec fn counter_of(counters: Map<Seq<char>, u64>, name: Seq<char>) -> u64 {
    if counters.dom().contains(name) {
        counters[name]
    } else {
        0
    }
}

/// The amount of a counter.
pub fn counter(counters: &Ledger<u64>, name: &str) -> (n: u64)
    requires
        counters.wf(),
    ensures
        n == counter_of(counters.spec_entries(), name@),
{
    match counters.get(name) {
        Some(n) => n,
        None => 0,
    }
}

/// Checks that a write made exactly the next version.
pub fn check_advance(before: u64, after: u64) -> (r: Result<(), WorkerError>)
    ensures
        match r {
            Ok(()) => after == before + 1,
            Err(e) => after != before + 1 && e@ == WorkerErrorView::Fixture(
                "sample did not advance exactly one table version"@,
            ),
        },
{
    if before == u64::MAX || after != before + 1 {
        return Err(fixture("sample did not advance exactly one table version"));
    }
    Ok(())
}

/// The property that the measured write set.
pub fn measured_property(found: Option<CanonicalValue>) -> (r: Result<String, WorkerError>)
    ensures
        match r {
            Ok(text) => {
                &&& text@ == "measured"@
                &&& found matches Some(value) && value@ == ValueView::Text(text@)
            },
            Err(e) => match found {
                None => e@ == WorkerErrorView::Fixture("measured property is absent"@),
                Some(value) => match value@ {
                    ValueView::Text(text) => {
                        &&& text != "measured"@
                        &&& e@ == WorkerErrorView::Fixture("measured property has the wrong value"@)
                    },
                    _ => e@ == WorkerErrorView::Fixture("measured property has the wrong type"@),
                },
            },
        },
{
    match found {
        None => Err(fixture("measured property is absent")),
        Some(CanonicalValue::Text(text)) => {
            if !reads(&text, "measured") {
                return Err(fixture("measured property has the wrong value"));
            }
            Ok(text)
        },
        Some(_) => Err(fixture("measured property has the wrong type")),
    }
}

/// What one measured write gives.
#[derive(Debug)]
pub struct RunOutput {
    pub ok: bool,
    pub mode: String,
    pub fixture: FixtureIdentity,
    pub before_table_version: u64,
    pub after_table_version: u64,
    pub measured_property: String,
    pub source_head_sha256: String,
    pub result_head_sha256: String,
    pub retained_history_verified: bool,
    pub incremental_publication: bool,
    pub complete_candidate_bytes: u64,
    pub published_image_artifact_bytes: u64,
    pub acknowledged_latency_ns: u64,
    pub unattributed_latency_ns: u64,
    pub probe: ProbeReport,
}

/// The latency that no phase of the top level accounts for.
pub open spec fn unattributed(latency: u64, phases: Seq<PhaseView>) -> u64 {
    if top_total(phases) >= latency {
        0
    } else {
        (latency - top_total(phases)) as u64
    }
}

/// How much latency may be unaccounted for: a twentieth, or a millisecond.
pub open spec fn allowance(latency: u64) -> u64 {
    if latency / 20 > 1000000 {
        latency / 20
    } else {
        1000000
    }
}

pub open spec fn excess_message(latency: u64, phases: Seq<PhaseView>) -> Seq<char> {
    "unattributed latency "@ + decimal(unattributed(latency, phases) as nat) + " ns exceeds "@
        + decimal(allowance(latency) as nat) + " ns"@
}

fn unattributed_latency(probe: &ProbeReport) -> (n: u64)
    ensures
        n == unattributed(probe.acknowledged_latency_ns, phases_view(probe.phases@)),
{
    let latency: u64 = probe.acknowledged_latency_ns;
    let ghost all = phases_view(probe.phases@);
    let mut left: u64 = latency;
    let mut i: usize = 0;
    while i < probe.phases.len()
        invariant
            i <= probe.phases@.len(),
            all == phases_view(probe.phases@),
            left == unattributed(latency, all.take(i as int)),
        decreases probe.phases@.len() - i,
    {
        proof {
            assert(all.take(i + 1).drop_last() =~= all.take(i as int));
            assert(all.take(i + 1).last() == probe.phases@[i as int]@);
        }
        let phase = &probe.phases[i];
        if phase.depth == 0 {
            left = if phase.duration_ns >= left {
                0
            } else {
                left - phase.duration_ns
            };
        }
        i = i + 1;
    }
    assert(all.take(i as int) =~= all);
    left
}

/// Judges a measured write: nearly all its time has to be accounted for, and it
/// has to publish less than the whole image.
pub fn finish_run(
    mode: String,
    fixture: FixtureIdentity,
    after_table_version: u64,
    measured_property: String,
    result_head: &[u8],
    probe: ProbeReport,
) -> (r: Result<RunOutput, WorkerError>)
    requires
        probe.counters.wf(),
    ensures
        ({
            let latency = probe.acknowledged_latency_ns;
            let phases = phases_view(probe.phases@);
            let counters = probe.counters.spec_entries();
            let complete = counter_of(counters, "candidate_logical_bytes"@);
            let published = counter_of(counters, "published_image_artifact_bytes"@);
            match r {
                Ok(run) => {
                    &&& unattributed(latency, phases) <= allowance(latency)
                    &&& published < complete
                    &&& run.ok && run.retained_history_verified && run.incremental_publication
                    &&& run.mode == mode
                    &&& run.fixture == fixture
                    &&& run.before_table_version == fixture.table_version
                    &&& run.after_table_version == after_table_version
                    &&& run.measured_property == measured_property
                    &&& run.source_head_sha256@ == fixture.head_sha256@
                    &&& run.result_head_sha256@ == hex_text(sha256_of(result_head@))
                    &&& run.complete_candidate_bytes == complete
                    &&& run.published_image_artifact_bytes == published
                    &&& run.acknowledged_latency_ns == latency
                    &&& run.unattributed_latency_ns == unattributed(latency, phases)
                    &&& run.probe == probe
                },
                Err(e) => if unattributed(latency, phases) > allowance(latency) {
                    e@ == WorkerErrorView::Probe(excess_message(latency, phases))
                } else {
                    &&& published >= complete
                    &&& e@ == WorkerErrorView::Probe("small mutation did not remain incremental"@)
                },
            }
        }),
{
    let complete: u64 = counter(&probe.counters, "candidate_logical_bytes");
    let published: u64 = counter(&probe.counters, "published_image_artifact_bytes");
    let latency: u64 = probe.acknowledged_latency_ns;
    let left: u64 = unattributed_latency(&probe);
    let most: u64 = if latency / 20 > 1000000 {
        latency / 20
    } else {
        1000000
    };
    if left > most {
        let mut message = "unattributed latency ".to_owned();
        append_decimal(&mut message, left);
        message.append(" ns exceeds ");
        append_decimal(&mut message, most);
        message.append(" ns");
        return Err(probe_error(message));
    }
    if published >= complete {
        return Err(probe_error("small mutation did not remain incremental".to_owned()));
    }
    Ok(
        RunOutput {
            ok: true,
            mode,
            before_table_version: fixture.table_version,
            after_table_version,
            measured_property,
            source_head_sha256: fixture.head_sha256.clone(),
            result_head_sha256: Sha256::digest(result_head).to_text(),
            retained_history_verified: true,
            incremental_publication: true,
            complete_candidate_bytes: complete,
            published_image_artifact_bytes: published,
            acknowledged_latency_ns: latency,
            unattributed_latency_ns: left,
            fixture,
            probe,
        },
    )
}

/// A session whose time is attributed never fails for unaccounted latency.
pub proof fn lemma_attributed_runs_pass(latency: u64, phases: Seq<PhaseView>)
    requires
        top_total(phases) == latency,
    ensures
        unattributed(latency, phases) == 0,
        unattributed(latency, phases) <= allowance(latency),
{
}

} // verus!

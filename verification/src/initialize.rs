//! The making of a table, from its schema to its first head.
use crate::candidate::{
    candidate_is, check_genesis_schema, genesis_commit_is, starting, Candidate, CandidateImage,
    GenesisDocuments, MediaTypes, PreparedCommit,
};
use crate::checkpoint_index::CheckpointIndexCodec;
use crate::documents::{DocumentCodec, Head};
use crate::error::{ErrorView, ProtocolError, RuntimeError};
use crate::hash::{Id, Sha256};
use crate::history::Status;
use crate::publication::{
    kind_of, GenesisAction, GenesisActionView, GenesisPublication, TransactionRetryPolicy,
    WriteOutcome,
};
use crate::schema::Schema;
use crate::storage::{
    after_step, head_key, head_version, next_fault, reports, written, ConditionalWriteOutcome,
    HeadStep, InjectedConditional, StorageError, StorageErrorView, StoreView,
};
use vstd::prelude::*;

verus! {

/// What the making of a table waits for.
#[derive(Clone, Copy, Debug, PartialEq, Eq, Structural)]
pub enum InitializePhase {
    /// The schema.
    Schema,
    /// The first commit with its image and its head, encoded.
    Candidate,
    /// The objects of the candidate, stored.
    Objects,
    /// The answer to the creation of the head.
    Write,
    /// The head, read back.
    Read,
    Finished,
}

/// The making of a table.
#[derive(Clone, Copy, Debug, PartialEq, Eq, Structural)]
pub struct Initialization {
    pub phase: InitializePhase,
    pub publication: GenesisPublication,
}

#[derive(Debug)]
pub enum InitializeAction {
    /// Prepare the first commit, and all that its head needs.
    Prepare,
    /// Store the objects of the candidate.
    Store,
    CreateHead,
    ReadHead,
    /// The candidate's head is the table's.
    Done,
    Fail(RuntimeError),
}

pub enum InitializeActionView {
    Prepare,
    Store,
    CreateHead,
    ReadHead,
    Done,
    Fail(ErrorView),
}

impl View for InitializeAction {
    type V = InitializeActionView;

    open spec fn view(&self) -> InitializeActionView {
        match *self {
            InitializeAction::Prepare => InitializeActionView::Prepare,
            InitializeAction::Store => InitializeActionView::Store,
            InitializeAction::CreateHead => InitializeActionView::CreateHead,
            InitializeAction::ReadHead => InitializeActionView::ReadHead,
            InitializeAction::Done => InitializeActionView::Done,
            InitializeAction::Fail(e) => InitializeActionView::Fail(e@),
        }
    }
}

/// Why a schema cannot start a table: the protocol finds a problem with it, or it
/// is not a first schema.
pub open spec fn initial_schema(problem: Option<ProtocolError>, schema: Schema) -> Result<
    (),
    ErrorView,
> {
    match problem {
        Some(problem) => Err(ErrorView::Protocol(problem.code@, problem.message@)),
        None => if schema.schema_id == 1 && schema.parent_schema_id is None {
            Ok(())
        } else {
            Err(
                ErrorView::InvalidInitialize(
                    "local/full-image profile genesis requires schema_id 1 with no parent schema"@,
                ),
            )
        },
    }
}

/// The step that a publication of the head asks for.
pub open spec fn step_of(action: GenesisActionView) -> (InitializePhase, InitializeActionView) {
    match action {
        GenesisActionView::CreateHead => (
            InitializePhase::Write,
            InitializeActionView::CreateHead,
        ),
        GenesisActionView::ReadHead => (InitializePhase::Read, InitializeActionView::ReadHead),
        GenesisActionView::Done => (InitializePhase::Finished, InitializeActionView::Done),
        GenesisActionView::Fail(e) => (InitializePhase::Finished, InitializeActionView::Fail(e)),
    }
}

fn step_for(action: GenesisAction) -> (step: (InitializePhase, InitializeAction))
    ensures
        (step.0, step.1@) == step_of(action@),
{
    match action {
        GenesisAction::CreateHead => (InitializePhase::Write, InitializeAction::CreateHead),
        GenesisAction::ReadHead => (InitializePhase::Read, InitializeAction::ReadHead),
        GenesisAction::Done => (InitializePhase::Finished, InitializeAction::Done),
        GenesisAction::Fail(e) => (InitializePhase::Finished, InitializeAction::Fail(e)),
    }
}

impl Initialization {
    pub open spec fn start(policy: TransactionRetryPolicy) -> Self {
        Initialization {
            phase: InitializePhase::Schema,
            publication: GenesisPublication { policy, reconciliations: 0, conflict: false },
        }
    }

    pub fn new(policy: TransactionRetryPolicy) -> (making: Self)
        ensures
            making == Self::start(policy),
    {
        Initialization {
            phase: InitializePhase::Schema,
            publication: GenesisPublication::new(policy),
        }
    }

    pub open spec fn at(self, phase: InitializePhase) -> Self {
        Initialization { phase, ..self }
    }

    pub open spec fn after_schema(
        self,
        problem: Option<ProtocolError>,
        schema: Schema,
    ) -> (Self, InitializeActionView) {
        match initial_schema(problem, schema) {
            Err(e) => (self.at(InitializePhase::Finished), InitializeActionView::Fail(e)),
            Ok(()) => (self.at(InitializePhase::Candidate), InitializeActionView::Prepare),
        }
    }

    /// The step after the schema was read. `problem` is what the protocol finds
    /// wrong with it.
    pub fn begin(&mut self, problem: Option<ProtocolError>, schema: &Schema) -> (action:
        InitializeAction)
        requires
            old(self).phase is Schema,
        ensures
            (*final(self), action@) == old(self).after_schema(problem, *schema),
    {
        if let Some(problem) = problem {
            self.phase = InitializePhase::Finished;
            return InitializeAction::Fail(RuntimeError::Protocol(problem));
        }
        match check_genesis_schema(schema) {
            Err(e) => {
                self.phase = InitializePhase::Finished;
                InitializeAction::Fail(e)
            },
            Ok(()) => {
                self.phase = InitializePhase::Candidate;
                InitializeAction::Prepare
            },
        }
    }

    pub open spec fn after_prepare(self, prepared: Result<(), ErrorView>) -> (
        Self,
        InitializeActionView,
    ) {
        match prepared {
            Err(e) => (self.at(InitializePhase::Finished), InitializeActionView::Fail(e)),
            Ok(()) => (self.at(InitializePhase::Objects), InitializeActionView::Store),
        }
    }

    /// The step after the candidate was prepared.
    pub fn prepared(&mut self, prepared: Result<(), RuntimeError>) -> (action: InitializeAction)
        requires
            old(self).phase is Candidate,
        ensures
            (*final(self), action@) == old(self).after_prepare(
                match prepared {
                    Ok(()) => Ok(()),
                    Err(e) => Err(e@),
                },
            ),
    {
        match prepared {
            Err(e) => {
                self.phase = InitializePhase::Finished;
                InitializeAction::Fail(e)
            },
            Ok(()) => {
                self.phase = InitializePhase::Objects;
                InitializeAction::Store
            },
        }
    }

    pub open spec fn after_store(self, stored: Result<(), ErrorView>) -> (
        Self,
        InitializeActionView,
    ) {
        match stored {
            Err(e) => (self.at(InitializePhase::Finished), InitializeActionView::Fail(e)),
            Ok(()) => (self.at(InitializePhase::Write), InitializeActionView::CreateHead),
        }
    }

    /// The step after the candidate's objects were stored.
    pub fn stored(&mut self, stored: Result<(), RuntimeError>) -> (action: InitializeAction)
        requires
            old(self).phase is Objects,
        ensures
            (*final(self), action@) == old(self).after_store(
                match stored {
                    Ok(()) => Ok(()),
                    Err(e) => Err(e@),
                },
            ),
    {
        match stored {
            Err(e) => {
                self.phase = InitializePhase::Finished;
                InitializeAction::Fail(e)
            },
            Ok(()) => {
                self.phase = InitializePhase::Write;
                InitializeAction::CreateHead
            },
        }
    }

    pub open spec fn after_write(self, outcome: WriteOutcome) -> (Self, InitializeActionView) {
        let (publication, action) = self.publication.after_write(outcome);
        let (phase, step) = step_of(action);
        (Initialization { phase, publication }, step)
    }

    /// The step after a write of the head.
    pub fn written(&mut self, outcome: WriteOutcome) -> (action: InitializeAction)
        requires
            old(self).phase is Write,
            old(self).publication.open(),
            old(self).publication.reconciliations < u32::MAX,
        ensures
            (*final(self), action@) == old(self).after_write(outcome),
    {
        let action = self.publication.written(outcome);
        let (phase, step) = step_for(action);
        self.phase = phase;
        step
    }

    pub open spec fn after_read(self, read: Result<bool, StorageErrorView>) -> (
        Self,
        InitializeActionView,
    ) {
        let (phase, step) = step_of(self.publication.after_read(read));
        (self.at(phase), step)
    }

    /// The step after the head was read back: whether it is the candidate's, or why
    /// it could not be read.
    pub fn read(&mut self, read: Result<bool, StorageError>) -> (action: InitializeAction)
        requires
            old(self).phase is Read,
        ensures
            (*final(self), action@) == old(self).after_read(
                match read {
                    Ok(same) => Ok(same),
                    Err(e) => Err(e@),
                },
            ),
    {
        let action = self.publication.read(read);
        let (phase, step) = step_for(action);
        self.phase = phase;
        step
    }
}

// ------------------------------------------------------------- the whole of it

/// How a store answers a write of a first head.
pub open spec fn answer(store: StoreView) -> WriteOutcome {
    let fault = next_fault(store);
    if fault == Some(InjectedConditional::IndeterminateBefore) {
        WriteOutcome::Indeterminate
    } else if head_version(store) is Some || fault == Some(InjectedConditional::Conflict) {
        WriteOutcome::Conflict
    } else if fault == Some(InjectedConditional::IndeterminateAfter) {
        WriteOutcome::Indeterminate
    } else {
        WriteOutcome::Applied
    }
}

/// What a read of the head shows: whether it holds these bytes.
pub open spec fn shows(store: StoreView, bytes: Seq<u8>) -> Result<bool, StorageErrorView> {
    if store.objects.contains_key(head_key()) {
        Ok(store.objects[head_key()].bytes == bytes)
    } else {
        Err(StorageErrorView::NotFound(head_key()))
    }
}

/// The store after objects were stored in their order. One that is there stays as
/// it is.
pub open spec fn with_objects(store: StoreView, objects: Seq<(Seq<char>, Seq<u8>)>) -> StoreView
    decreases objects.len(),
{
    if objects.len() == 0 {
        store
    } else {
        let before = with_objects(store, objects.drop_last());
        if before.objects.contains_key(objects.last().0) {
            before
        } else {
            written(before, objects.last().0, objects.last().1)
        }
    }
}

/// A publication of a first head, carried to its end: the store that it leaves, and
/// whether the head is the table's. A write is asked for at most `writes` times.
pub open spec fn carried(
    making: Initialization,
    store: StoreView,
    head: Seq<u8>,
    writes: nat,
) -> (StoreView, Result<(), ErrorView>)
    decreases writes,
{
    let after = after_step(store, HeadStep::Write { expected: None, bytes: head });
    let (written, action) = making.after_write(answer(store));
    match action {
        InitializeActionView::Done => (after, Ok(())),
        InitializeActionView::Fail(e) => (after, Err(e)),
        _ => {
            let (next, step) = written.after_read(shows(after, head));
            match step {
                InitializeActionView::Done => (after, Ok(())),
                InitializeActionView::Fail(e) => (after, Err(e)),
                _ => if writes == 0 {
                    (after, Err(ErrorView::PublicationIndeterminate))
                } else {
                    carried(next, after, head, (writes - 1) as nat)
                },
            }
        },
    }
}

/// The making of a table on a store: the store that it leaves, and whether the
/// candidate's head is the table's.
pub open spec fn initialized(
    policy: TransactionRetryPolicy,
    store: StoreView,
    problem: Option<ProtocolError>,
    schema: Schema,
    objects: Seq<(Seq<char>, Seq<u8>)>,
    head: Seq<u8>,
) -> (StoreView, Result<(), ErrorView>) {
    let (begun, action) = Initialization::start(policy).after_schema(problem, schema);
    match action {
        InitializeActionView::Fail(e) => (store, Err(e)),
        _ => {
            let (prepared, _) = begun.after_prepare(Ok(()));
            let (stored, _) = prepared.after_store(Ok(()));
            carried(
                stored,
                with_objects(store, objects),
                head,
                policy.maximum_indeterminate_reconciliations as nat,
            )
        },
    }
}

/// No object stands where the head does.
pub open spec fn besides_head(objects: Seq<(Seq<char>, Seq<u8>)>) -> bool {
    forall|i: int| 0 <= i < objects.len() ==> (#[trigger] objects[i]).0 != head_key()
}

proof fn lemma_objects_keep_the_head(store: StoreView, objects: Seq<(Seq<char>, Seq<u8>)>)
    requires
        besides_head(objects),
    ensures
        ({
            let after = with_objects(store, objects);
            &&& after.faults == store.faults
            &&& after.objects.contains_key(head_key()) == store.objects.contains_key(head_key())
            &&& store.objects.contains_key(head_key()) ==> after.objects[head_key()]
                == store.objects[head_key()]
        }),
    decreases objects.len(),
{
    if objects.len() > 0 {
        lemma_objects_keep_the_head(store, objects.drop_last());
        assert(objects.last().0 != head_key());
    }
}

proof fn lemma_objects_are_held(store: StoreView, objects: Seq<(Seq<char>, Seq<u8>)>, i: int)
    requires
        0 <= i < objects.len(),
    ensures
        with_objects(store, objects).objects.contains_key(objects[i].0),
    decreases objects.len(),
{
    if i < objects.len() - 1 {
        lemma_objects_are_held(store, objects.drop_last(), i);
    }
}

/// A store answers a write of a first head as it reports it.
pub proof fn lemma_answer_is_reported(
    store: StoreView,
    bytes: Seq<u8>,
    outcome: ConditionalWriteOutcome,
)
    requires
        reports(outcome, store, None, bytes),
    ensures
        kind_of(outcome) == answer(store),
{
}

/// A schema that cannot start a table is refused before anything is written: one
/// that is not the first, or has a parent, or that the protocol finds a problem
/// with. The store stays as it is.
pub proof fn lemma_refused_initialize_writes_nothing(
    policy: TransactionRetryPolicy,
    store: StoreView,
    problem: Option<ProtocolError>,
    schema: Schema,
    objects: Seq<(Seq<char>, Seq<u8>)>,
    head: Seq<u8>,
)
    requires
        problem is Some || schema.schema_id != 1 || schema.parent_schema_id is Some,
    ensures
        ({
            let (after, r) = initialized(policy, store, problem, schema, objects, head);
            &&& after == store
            &&& r is Err
            &&& problem is None ==> r == Err::<(), ErrorView>(
                ErrorView::InvalidInitialize(
                    "local/full-image profile genesis requires schema_id 1 with no parent schema"@,
                ),
            )
        }),
{
}

/// A first schema on a store without a head makes a table: the head is the
/// candidate's, every object that it needs is there, and the table stands at
/// version 0 and root revision 0.
pub proof fn lemma_initialize_makes_the_table<C: DocumentCodec + CheckpointIndexCodec>(
    codec: C,
    policy: TransactionRetryPolicy,
    store: StoreView,
    schema: Schema,
    documents: GenesisDocuments,
    intent: Sha256,
    prepared: PreparedCommit,
    media: MediaTypes,
    image: CandidateImage,
    page_count: u64,
    generation_id: Id,
    candidate: Candidate,
    objects: Seq<(Seq<char>, Seq<u8>)>,
    status: Status,
)
    requires
        !store.objects.contains_key(head_key()),
        store.faults.len() == 0,
        schema.schema_id == 1,
        schema.parent_schema_id is None,
        genesis_commit_is(prepared.commit, documents, intent),
        candidate_is(
            codec,
            candidate,
            starting(prepared, media, image, page_count, generation_id),
        ),
        besides_head(objects),
        shows_head(status, candidate.head),
    ensures
        ({
            let (after, r) = initialized(
                policy,
                store,
                None,
                schema,
                objects,
                candidate.head_bytes@,
            );
            &&& r is Ok
            &&& after.objects.contains_key(head_key())
            &&& after.objects[head_key()].bytes == candidate.head_bytes@
            &&& forall|i: int|
                0 <= i < objects.len() ==> after.objects.contains_key((#[trigger] objects[i]).0)
        }),
        status.table_id == documents.table_id,
        status.table_version == 0,
        status.root_revision == 0,
        status.semantic_state_sha256 == prepared.commit.semantic_state_sha256,
        status.current_snapshot_id is None,
{
    lemma_objects_keep_the_head(store, objects);
    let (after, r) = initialized(policy, store, None, schema, objects, candidate.head_bytes@);
    assert forall|i: int| 0 <= i < objects.len() implies after.objects.contains_key(
        (#[trigger] objects[i]).0,
    ) by {
        lemma_objects_are_held(store, objects, i);
    }
}

/// What a status without a snapshot says is what the head says.
pub open spec fn shows_head(status: Status, head: Head) -> bool {
    &&& status.table_id == head.table_id
    &&& status.table_version == head.table_version
    &&& status.root_revision == head.root_revision
    &&& status.semantic_state_sha256 == head.semantic_state_sha256
    &&& status.current_snapshot_id is None
}

/// A table is made once: where there is a head with other bytes, the making of a
/// table reports that it exists and leaves the head as it is, whatever faults the
/// store meets.
pub proof fn lemma_second_initialize_is_refused(
    policy: TransactionRetryPolicy,
    store: StoreView,
    schema: Schema,
    objects: Seq<(Seq<char>, Seq<u8>)>,
    head: Seq<u8>,
)
    requires
        store.objects.contains_key(head_key()),
        store.objects[head_key()].bytes != head,
        schema.schema_id == 1,
        schema.parent_schema_id is None,
        besides_head(objects),
    ensures
        ({
            let (after, r) = initialized(policy, store, None, schema, objects, head);
            &&& r == Err::<(), ErrorView>(ErrorView::AlreadyExists)
            &&& after.objects.contains_key(head_key())
            &&& after.objects[head_key()] == store.objects[head_key()]
        }),
{
    lemma_objects_keep_the_head(store, objects);
}

/// Whatever faults the store meets, a table that was reported as made has the
/// candidate's head.
pub proof fn lemma_reported_head_is_there(
    making: Initialization,
    store: StoreView,
    head: Seq<u8>,
    writes: nat,
)
    ensures
        ({
            let (after, r) = carried(making, store, head, writes);
            r is Ok ==> after.objects.contains_key(head_key())
                && after.objects[head_key()].bytes == head
        }),
    decreases writes,
{
    let after = after_step(store, HeadStep::Write { expected: None, bytes: head });
    let (written, action) = making.after_write(answer(store));
    let (next, step) = written.after_read(shows(after, head));
    if writes > 0 {
        lemma_reported_head_is_there(next, after, head, (writes - 1) as nat);
    }
}

} // verus!

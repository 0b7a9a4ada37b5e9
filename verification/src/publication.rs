//! Publishing a new table head: which step follows which outcome.
use crate::error::{ErrorView, RuntimeError};
use crate::hash::Sha256;
use crate::storage::{
    after_step, head_key, reports, ConditionalWriteOutcome, HeadStep, StorageError,
    StorageErrorView, StoreView,
};
use vstd::prelude::*;

verus! {

/// How often a publication is tried again.
#[derive(Clone, Copy, Debug, PartialEq, Eq, Structural)]
pub struct TransactionRetryPolicy {
    pub maximum_rebases: u32,
    pub maximum_indeterminate_reconciliations: u32,
}

impl Default for TransactionRetryPolicy {
    fn default() -> (policy: Self)
        ensures
            policy.maximum_rebases == 8,
            policy.maximum_indeterminate_reconciliations == 3,
    {
        TransactionRetryPolicy { maximum_rebases: 8, maximum_indeterminate_reconciliations: 3 }
    }
}

/// What a conditional write of the head did.
#[derive(Clone, Copy, Debug, PartialEq, Eq, Structural)]
pub enum WriteOutcome {
    Applied,
    Conflict,
    /// The write may have been applied: its answer was lost.
    Indeterminate,
}

/// What a store's answer says of the write.
pub open spec fn kind_of(outcome: ConditionalWriteOutcome) -> WriteOutcome {
    match outcome {
        ConditionalWriteOutcome::Applied { .. } => WriteOutcome::Applied,
        ConditionalWriteOutcome::Conflict { .. } => WriteOutcome::Conflict,
        ConditionalWriteOutcome::Indeterminate { .. } => WriteOutcome::Indeterminate,
    }
}

/// What a store's answer says of the write.
pub fn outcome_of(outcome: &ConditionalWriteOutcome) -> (kind: WriteOutcome)
    ensures
        kind == kind_of(*outcome),
{
    match outcome {
        ConditionalWriteOutcome::Applied { .. } => WriteOutcome::Applied,
        ConditionalWriteOutcome::Conflict { .. } => WriteOutcome::Conflict,
        ConditionalWriteOutcome::Indeterminate { .. } => WriteOutcome::Indeterminate,
    }
}

/// The publication of the first head of a table.
#[derive(Clone, Copy, Debug, PartialEq, Eq, Structural)]
pub struct GenesisPublication {
    pub policy: TransactionRetryPolicy,
    pub reconciliations: u32,
    /// Whether the last write was answered by a conflict.
    pub conflict: bool,
}

#[derive(Debug)]
pub enum GenesisAction {
    CreateHead,
    ReadHead,
    Done,
    Fail(RuntimeError),
}

pub enum GenesisActionView {
    CreateHead,
    ReadHead,
    Done,
    Fail(ErrorView),
}

impl View for GenesisAction {
    type V = GenesisActionView;

    open spec fn view(&self) -> GenesisActionView {
        match *self {
            GenesisAction::CreateHead => GenesisActionView::CreateHead,
            GenesisAction::ReadHead => GenesisActionView::ReadHead,
            GenesisAction::Done => GenesisActionView::Done,
            GenesisAction::Fail(e) => GenesisActionView::Fail(e@),
        }
    }
}

impl GenesisPublication {
    pub fn new(policy: TransactionRetryPolicy) -> (publication: Self)
        ensures
            publication == (GenesisPublication { policy, reconciliations: 0, conflict: false }),
    {
        GenesisPublication { policy, reconciliations: 0, conflict: false }
    }

    /// Whether another write may follow.
    pub open spec fn open(self) -> bool {
        self.reconciliations <= self.policy.maximum_indeterminate_reconciliations
    }

    pub open spec fn after_write(self, outcome: WriteOutcome) -> (Self, GenesisActionView) {
        match outcome {
            WriteOutcome::Applied => (self, GenesisActionView::Done),
            WriteOutcome::Conflict => (
                GenesisPublication { conflict: true, ..self },
                GenesisActionView::ReadHead,
            ),
            WriteOutcome::Indeterminate => (
                GenesisPublication {
                    conflict: false,
                    reconciliations: (self.reconciliations + 1) as u32,
                    ..self
                },
                GenesisActionView::ReadHead,
            ),
        }
    }

    /// The step after a write of the head. A write is tried only while the
    /// policy allows it, so the count stays in range.
    pub fn written(&mut self, outcome: WriteOutcome) -> (action: GenesisAction)
        requires
            old(self).open(),
            old(self).reconciliations < u32::MAX,
        ensures
            (*final(self), action@) == old(self).after_write(outcome),
    {
        match outcome {
            WriteOutcome::Applied => GenesisAction::Done,
            WriteOutcome::Conflict => {
                self.conflict = true;
                GenesisAction::ReadHead
            },
            WriteOutcome::Indeterminate => {
                self.conflict = false;
                self.reconciliations = self.reconciliations + 1;
                GenesisAction::ReadHead
            },
        }
    }

    pub open spec fn after_read(self, read: Result<bool, StorageErrorView>) -> GenesisActionView {
        match read {
            Ok(true) => GenesisActionView::Done,
            Ok(false) => GenesisActionView::Fail(ErrorView::AlreadyExists),
            Err(e) => if self.conflict {
                if self.reconciliations > 0 {
                    GenesisActionView::Fail(ErrorView::PublicationIndeterminate)
                } else {
                    GenesisActionView::Fail(ErrorView::Storage(e))
                }
            } else if self.open() {
                GenesisActionView::CreateHead
            } else {
                GenesisActionView::Fail(ErrorView::PublicationIndeterminate)
            },
        }
    }

    /// The step after the head was read back: whether it is the one that was
    /// written, or why it could not be read.
    pub fn read(&self, read: Result<bool, StorageError>) -> (action: GenesisAction)
        ensures
            action@ == self.after_read(
                match read {
                    Ok(same) => Ok(same),
                    Err(e) => Err(e@),
                },
            ),
    {
        match read {
            Ok(same) => if same {
                GenesisAction::Done
            } else {
                GenesisAction::Fail(RuntimeError::AlreadyExists)
            },
            Err(e) => if self.conflict {
                if self.reconciliations > 0 {
                    GenesisAction::Fail(RuntimeError::PublicationIndeterminate)
                } else {
                    GenesisAction::Fail(RuntimeError::Storage(e))
                }
            } else if self.reconciliations <= self.policy.maximum_indeterminate_reconciliations {
                GenesisAction::CreateHead
            } else {
                GenesisAction::Fail(RuntimeError::PublicationIndeterminate)
            },
        }
    }
}

/// Once an answer was lost, a failure to read the head is reported as
/// indeterminate or retried, never as a plain storage failure.
pub proof fn lemma_genesis_keeps_doubt(
    before: GenesisPublication,
    read: Result<bool, StorageErrorView>,
)
    requires
        before.reconciliations > 0,
    ensures
        !(before.after_read(read) matches GenesisActionView::Fail(ErrorView::Storage(_))),
{
}

/// Each further write follows a lost answer, and the policy bounds their number:
/// a write is asked for only while the publication is open.
pub proof fn lemma_genesis_is_bounded(
    before: GenesisPublication,
    outcome: WriteOutcome,
    read: Result<bool, StorageErrorView>,
)
    requires
        before.open(),
        before.reconciliations < u32::MAX,
        before.after_write(outcome).1 is ReadHead,
        before.after_write(outcome).0.after_read(read) is CreateHead,
    ensures
        before.after_write(outcome).0.open(),
        before.after_write(outcome).0.reconciliations == before.reconciliations + 1,
{
}

/// A table is begun once: where there is a head with other contents, a whole
/// publication of a first head, whatever faults the store meets, leaves every
/// object as it is and reports that the table exists.
pub proof fn lemma_second_genesis_changes_nothing(
    store: StoreView,
    publication: GenesisPublication,
    head: Seq<u8>,
    outcome: ConditionalWriteOutcome,
)
    requires
        store.objects.contains_key(head_key()),
        store.objects[head_key()].bytes != head,
        reports(outcome, store, None, head),
    ensures
        ({
            let after = after_step(store, HeadStep::Write { expected: None, bytes: head });
            let (next, action) = publication.after_write(kind_of(outcome));
            &&& after.objects == store.objects
            &&& after.revisions == store.revisions
            &&& action is ReadHead
            &&& next.after_read(Ok(after.objects[head_key()].bytes == head))
                == GenesisActionView::Fail(ErrorView::AlreadyExists)
        }),
{
}

/// What was stored under an idempotency key, held against the request.
#[derive(Clone, Copy, Debug, PartialEq, Eq, Structural)]
pub enum Replay {
    Absent,
    /// The same request was committed before.
    Found,
    /// Another request was committed under the key.
    Conflict,
}

pub open spec fn replay_of(stored: Option<Sha256>, intent: Sha256) -> Replay {
    match stored {
        None => Replay::Absent,
        Some(hash) => if hash == intent {
            Replay::Found
        } else {
            Replay::Conflict
        },
    }
}

/// Compares the stored intent of a key, if there is one, with the request's.
pub fn replay(stored: Option<Sha256>, intent: Sha256) -> (replay: Replay)
    ensures
        replay == replay_of(stored, intent),
{
    match stored {
        None => Replay::Absent,
        Some(hash) => if hash == intent {
            Replay::Found
        } else {
            Replay::Conflict
        },
    }
}

/// What a pinned head shows to a publication.
#[derive(Clone, Copy, Debug, PartialEq, Eq, Structural)]
pub struct PinFacts {
    /// Whether the head still belongs to the table that the publication began on.
    pub same_table: bool,
    pub replay: Replay,
    /// Whether the head is the parent that the candidate was built on.
    pub unchanged: bool,
}

/// What a publication waits for.
#[derive(Clone, Copy, Debug, PartialEq, Eq, Structural)]
pub enum Phase {
    /// A first parent.
    Parent,
    /// A candidate built and its objects stored.
    Candidate,
    /// The answer to the head swap.
    Swap,
    /// The head after a lost answer.
    Reconcile,
    /// The head that won a conflict.
    Winner,
    Finished,
}

#[derive(Debug)]
pub enum Event {
    /// A pin was taken.
    Pinned(PinFacts),
    /// No pin could be taken.
    PinFailed(RuntimeError),
    /// A pin on the same table was taken, and its stored result could not be read.
    ReplayFailed(RuntimeError),
    Stored,
    BuildFailed(RuntimeError),
    Swapped(WriteOutcome),
}

pub enum EventView {
    Pinned(PinFacts),
    PinFailed(ErrorView),
    ReplayFailed(ErrorView),
    Stored,
    BuildFailed(ErrorView),
    Swapped(WriteOutcome),
}

impl View for Event {
    type V = EventView;

    open spec fn view(&self) -> EventView {
        match *self {
            Event::Pinned(facts) => EventView::Pinned(facts),
            Event::PinFailed(e) => EventView::PinFailed(e@),
            Event::ReplayFailed(e) => EventView::ReplayFailed(e@),
            Event::Stored => EventView::Stored,
            Event::BuildFailed(e) => EventView::BuildFailed(e@),
            Event::Swapped(outcome) => EventView::Swapped(outcome),
        }
    }
}

#[derive(Debug)]
pub enum Action {
    /// Build a candidate on the last pin, and store its objects.
    Build,
    /// Swap the head for the candidate's.
    Swap,
    /// Pin the head.
    Pin,
    /// The candidate is the table's head.
    Published,
    /// The request was committed before: its stored result stands.
    Replayed,
    Fail(RuntimeError),
}

pub enum ActionView {
    Build,
    Swap,
    Pin,
    Published,
    Replayed,
    Fail(ErrorView),
}

impl View for Action {
    type V = ActionView;

    open spec fn view(&self) -> ActionView {
        match *self {
            Action::Build => ActionView::Build,
            Action::Swap => ActionView::Swap,
            Action::Pin => ActionView::Pin,
            Action::Published => ActionView::Published,
            Action::Replayed => ActionView::Replayed,
            Action::Fail(e) => ActionView::Fail(e@),
        }
    }
}

/// The publication of a commit on an existing table.
#[derive(Clone, Copy, Debug, PartialEq, Eq, Structural)]
pub struct Publication {
    pub policy: TransactionRetryPolicy,
    pub phase: Phase,
    pub rebases: u64,
    /// Lost answers since the candidate was built.
    pub indeterminate: u64,
    /// Whether some candidate may have become the head.
    pub may_have_applied: bool,
    /// Whether the head that a reconciliation found is rebased on as it is, or
    /// pinned again.
    pub keep_reconciled: bool,
}

pub open spec fn moved(message: Seq<char>) -> ActionView {
    ActionView::Fail(ErrorView::SemanticConflict(message))
}

impl Publication {
    pub fn new(policy: TransactionRetryPolicy, keep_reconciled: bool) -> (publication: Self)
        ensures
            publication == (Publication {
                policy,
                phase: Phase::Parent,
                rebases: 0,
                indeterminate: 0,
                may_have_applied: false,
                keep_reconciled,
            }),
            publication.wf(),
    {
        Publication {
            policy,
            phase: Phase::Parent,
            rebases: 0,
            indeterminate: 0,
            may_have_applied: false,
            keep_reconciled,
        }
    }

    /// The counts stay within the policy.
    pub open spec fn wf(self) -> bool {
        &&& self.rebases <= self.policy.maximum_rebases
        &&& self.indeterminate <= self.policy.maximum_indeterminate_reconciliations + 1
        &&& self.phase is Swap ==> self.indeterminate
            <= self.policy.maximum_indeterminate_reconciliations
        &&& self.phase is Reconcile ==> self.indeterminate > 0
        &&& self.phase is Parent || self.phase is Candidate ==> self.indeterminate == 0
        &&& self.indeterminate > 0 ==> self.may_have_applied
    }

    /// The events that a phase waits for.
    pub open spec fn expects(self, event: EventView) -> bool {
        match self.phase {
            Phase::Parent => event is Pinned || event is PinFailed || event is ReplayFailed,
            Phase::Candidate => event is Stored || event is BuildFailed,
            Phase::Swap => event is Swapped,
            Phase::Reconcile => event is Pinned || event is PinFailed || event is ReplayFailed,
            Phase::Winner => event is Pinned || event is PinFailed || event is ReplayFailed,
            Phase::Finished => false,
        }
    }

    pub open spec fn finished(self) -> Self {
        Publication { phase: Phase::Finished, ..self }
    }

    /// The step on a head that won a conflict: build again on it.
    pub open spec fn rebased(self) -> (Self, ActionView) {
        if self.rebases >= self.policy.maximum_rebases {
            (self.finished(), ActionView::Fail(ErrorView::RebaseExhausted))
        } else {
            (
                Publication {
                    phase: Phase::Candidate,
                    rebases: (self.rebases + 1) as u64,
                    indeterminate: 0,
                    ..self
                },
                ActionView::Build,
            )
        }
    }

    pub open spec fn again(self) -> bool {
        self.indeterminate <= self.policy.maximum_indeterminate_reconciliations
    }

    pub open spec fn next(self, event: EventView) -> (Self, ActionView) {
        match (self.phase, event) {
            (Phase::Parent, EventView::Pinned(facts)) => if !facts.same_table {
                (self.finished(), moved("table identity changed during publication"@))
            } else {
                match facts.replay {
                    Replay::Found => (self.finished(), ActionView::Replayed),
                    Replay::Conflict => (
                        self.finished(),
                        ActionView::Fail(ErrorView::IdempotencyConflict),
                    ),
                    Replay::Absent => (
                        Publication { phase: Phase::Candidate, indeterminate: 0, ..self },
                        ActionView::Build,
                    ),
                }
            },
            (Phase::Parent, EventView::ReplayFailed(e)) => (self.finished(), ActionView::Fail(e)),
            (Phase::Parent, EventView::PinFailed(e)) => (self.finished(), ActionView::Fail(e)),
            (Phase::Candidate, EventView::Stored) => (
                Publication { phase: Phase::Swap, indeterminate: 0, ..self },
                ActionView::Swap,
            ),
            (Phase::Candidate, EventView::BuildFailed(e)) => (self.finished(), ActionView::Fail(e)),
            (Phase::Swap, EventView::Swapped(outcome)) => match outcome {
                WriteOutcome::Applied => (self.finished(), ActionView::Published),
                WriteOutcome::Conflict => (
                    Publication { phase: Phase::Winner, ..self },
                    ActionView::Pin,
                ),
                WriteOutcome::Indeterminate => (
                    Publication {
                        phase: Phase::Reconcile,
                        indeterminate: (self.indeterminate + 1) as u64,
                        may_have_applied: true,
                        ..self
                    },
                    ActionView::Pin,
                ),
            },
            (Phase::Reconcile, EventView::Pinned(facts)) => if !facts.same_table {
                (self.finished(), moved("table identity changed during reconciliation"@))
            } else {
                match facts.replay {
                    Replay::Found => (self.finished(), ActionView::Replayed),
                    Replay::Conflict => (
                        self.finished(),
                        ActionView::Fail(ErrorView::IdempotencyConflict),
                    ),
                    Replay::Absent => if facts.unchanged {
                        if self.again() {
                            (Publication { phase: Phase::Swap, ..self }, ActionView::Swap)
                        } else {
                            (
                                self.finished(),
                                ActionView::Fail(ErrorView::PublicationIndeterminate),
                            )
                        }
                    } else if self.keep_reconciled {
                        self.rebased()
                    } else {
                        (Publication { phase: Phase::Winner, ..self }, ActionView::Pin)
                    },
                }
            },
            (Phase::Reconcile, EventView::ReplayFailed(e)) => (self.finished(), ActionView::Fail(e)),
            (Phase::Reconcile, EventView::PinFailed(_)) => if self.again() {
                (Publication { phase: Phase::Swap, ..self }, ActionView::Swap)
            } else {
                (self.finished(), ActionView::Fail(ErrorView::PublicationIndeterminate))
            },
            (Phase::Winner, EventView::Pinned(facts)) => if !facts.same_table {
                (self.finished(), moved("table identity changed after conflict"@))
            } else {
                match facts.replay {
                    Replay::Found => (self.finished(), ActionView::Replayed),
                    Replay::Conflict => (
                        self.finished(),
                        ActionView::Fail(ErrorView::IdempotencyConflict),
                    ),
                    Replay::Absent => self.rebased(),
                }
            },
            (Phase::Winner, EventView::ReplayFailed(e)) => (self.finished(), ActionView::Fail(e)),
            (Phase::Winner, EventView::PinFailed(e)) => if self.indeterminate > 0 {
                (self.finished(), ActionView::Fail(ErrorView::PublicationIndeterminate))
            } else {
                (self.finished(), ActionView::Fail(e))
            },
            _ => (self, ActionView::Fail(ErrorView::PublicationIndeterminate)),
        }
    }

    fn rebase(&mut self) -> (action: Action)
        requires
            old(self).wf(),
        ensures
            (*final(self), action@) == old(self).rebased(),
    {
        if self.rebases >= self.policy.maximum_rebases as u64 {
            self.phase = Phase::Finished;
            Action::Fail(RuntimeError::RebaseExhausted)
        } else {
            self.phase = Phase::Candidate;
            self.rebases = self.rebases + 1;
            self.indeterminate = 0;
            Action::Build
        }
    }

    fn fail(&mut self, e: RuntimeError) -> (action: Action)
        ensures
            *final(self) == old(self).finished(),
            action@ == ActionView::Fail(e@),
    {
        self.phase = Phase::Finished;
        Action::Fail(e)
    }

    fn replayed(&mut self) -> (action: Action)
        ensures
            *final(self) == old(self).finished(),
            action@ is Replayed,
    {
        self.phase = Phase::Finished;
        Action::Replayed
    }

    /// The step that follows an event.
    pub fn step(&mut self, event: Event) -> (action: Action)
        requires
            old(self).wf(),
            old(self).expects(event@),
        ensures
            final(self).wf(),
            (*final(self), action@) == old(self).next(event@),
    {
        let again: bool = self.indeterminate
            <= self.policy.maximum_indeterminate_reconciliations as u64;
        match (self.phase, event) {
            (Phase::Parent, Event::Pinned(facts)) => {
                if !facts.same_table {
                    return self.fail(
                        RuntimeError::SemanticConflict(
                            "table identity changed during publication".to_owned(),
                        ),
                    );
                }
                match facts.replay {
                    Replay::Found => self.replayed(),
                    Replay::Conflict => self.fail(RuntimeError::IdempotencyConflict),
                    Replay::Absent => {
                        self.phase = Phase::Candidate;
                        self.indeterminate = 0;
                        Action::Build
                    },
                }
            },
            (Phase::Parent, Event::ReplayFailed(e)) => self.fail(e),
            (Phase::Parent, Event::PinFailed(e)) => self.fail(e),
            (Phase::Candidate, Event::Stored) => {
                self.phase = Phase::Swap;
                self.indeterminate = 0;
                Action::Swap
            },
            (Phase::Candidate, Event::BuildFailed(e)) => self.fail(e),
            (Phase::Swap, Event::Swapped(outcome)) => match outcome {
                WriteOutcome::Applied => {
                    self.phase = Phase::Finished;
                    Action::Published
                },
                WriteOutcome::Conflict => {
                    self.phase = Phase::Winner;
                    Action::Pin
                },
                WriteOutcome::Indeterminate => {
                    self.phase = Phase::Reconcile;
                    self.indeterminate = self.indeterminate + 1;
                    self.may_have_applied = true;
                    Action::Pin
                },
            },
            (Phase::Reconcile, Event::Pinned(facts)) => {
                if !facts.same_table {
                    return self.fail(
                        RuntimeError::SemanticConflict(
                            "table identity changed during reconciliation".to_owned(),
                        ),
                    );
                }
                match facts.replay {
                    Replay::Found => self.replayed(),
                    Replay::Conflict => self.fail(RuntimeError::IdempotencyConflict),
                    Replay::Absent => if facts.unchanged {
                        if again {
                            self.phase = Phase::Swap;
                            Action::Swap
                        } else {
                            self.fail(RuntimeError::PublicationIndeterminate)
                        }
                    } else if self.keep_reconciled {
                        self.rebase()
                    } else {
                        self.phase = Phase::Winner;
                        Action::Pin
                    },
                }
            },
            (Phase::Reconcile, Event::ReplayFailed(e)) => self.fail(e),
            (Phase::Reconcile, Event::PinFailed(_)) => {
                if again {
                    self.phase = Phase::Swap;
                    Action::Swap
                } else {
                    self.fail(RuntimeError::PublicationIndeterminate)
                }
            },
            (Phase::Winner, Event::Pinned(facts)) => {
                if !facts.same_table {
                    return self.fail(
                        RuntimeError::SemanticConflict(
                            "table identity changed after conflict".to_owned(),
                        ),
                    );
                }
                match facts.replay {
                    Replay::Found => self.replayed(),
                    Replay::Conflict => self.fail(RuntimeError::IdempotencyConflict),
                    Replay::Absent => self.rebase(),
                }
            },
            (Phase::Winner, Event::ReplayFailed(e)) => self.fail(e),
            (Phase::Winner, Event::PinFailed(e)) => {
                if self.indeterminate > 0 {
                    self.fail(RuntimeError::PublicationIndeterminate)
                } else {
                    self.fail(e)
                }
            },
            _ => Action::Fail(RuntimeError::PublicationIndeterminate),
        }
    }

    /// Whether files that were staged for the publication are to be removed: only
    /// after a failure, and only where no candidate may have become the head.
    pub fn removes_staged(&self, failed: bool) -> (removes: bool)
        ensures
            removes == (failed && !self.may_have_applied),
    {
        failed && !self.may_have_applied
    }

    /// Steps that are left at most: attempts under the policy, then phases.
    pub open spec fn measure(self) -> (int, int, int) {
        (
            self.policy.maximum_rebases - self.rebases,
            self.policy.maximum_indeterminate_reconciliations + 1 - self.indeterminate,
            match self.phase {
                Phase::Parent => 5,
                Phase::Candidate => 4,
                Phase::Swap => 3,
                Phase::Reconcile => 4,
                Phase::Winner => 2,
                Phase::Finished => 0int,
            },
        )
    }
}

pub open spec fn smaller(a: (int, int, int), b: (int, int, int)) -> bool {
    ||| a.0 < b.0
    ||| a.0 == b.0 && a.1 < b.1
    ||| a.0 == b.0 && a.1 == b.1 && a.2 < b.2
}

/// A publication ends: every expected event brings it nearer to its end.
pub proof fn lemma_publication_ends(before: Publication, event: EventView)
    requires
        before.wf(),
        before.expects(event),
    ensures
        smaller(before.next(event).0.measure(), before.measure()),
        before.next(event).0.wf(),
        before.next(event).0.measure().0 >= 0,
        before.next(event).0.measure().1 >= 0,
        before.next(event).0.measure().2 >= 0,
        before.next(event).0.phase is Finished <==> {
            ||| before.next(event).1 is Published
            ||| before.next(event).1 is Replayed
            ||| before.next(event).1 is Fail
        },
{
}

/// Success is reported only for a swap that was applied, or for a stored result
/// of the same request.
pub proof fn lemma_success_is_real(before: Publication, event: EventView)
    requires
        before.expects(event),
    ensures
        before.next(event).1 is Published ==> event == EventView::Swapped(WriteOutcome::Applied),
        before.next(event).1 is Replayed ==> (event matches EventView::Pinned(facts)
            && facts.same_table && facts.replay is Found),
{
}

/// Once the answer to a swap of the candidate was lost, no failure to pin the
/// head is reported as if the candidate had not been published.
pub proof fn lemma_doubt_is_kept(before: Publication, e: ErrorView)
    requires
        before.wf(),
        before.phase is Reconcile || before.phase is Winner,
        before.indeterminate > 0,
    ensures
        before.next(EventView::PinFailed(e)).1 matches ActionView::Fail(reported)
            ==> reported is PublicationIndeterminate,
{
}

/// A publication that may have applied stays so, and becomes so only by a lost
/// answer.
pub proof fn lemma_doubt_is_monotone(before: Publication, event: EventView)
    requires
        before.expects(event),
    ensures
        before.next(event).0.may_have_applied == (before.may_have_applied || event
            == EventView::Swapped(WriteOutcome::Indeterminate)),
{
}

/// A pin that shows the request as committed before ends a publication with what
/// was stored: nothing is built after it, and no head is swapped.
pub proof fn lemma_found_request_is_replayed(publication: Publication, facts: PinFacts)
    requires
        publication.expects(EventView::Pinned(facts)),
        facts.same_table,
        facts.replay is Found,
    ensures
        publication.next(EventView::Pinned(facts)) == (
            publication.finished(),
            ActionView::Replayed,
        ),
{
}

} // verus!

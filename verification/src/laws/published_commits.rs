//! How a commit comes to be the head of a table: which step follows which event, and
//! what a store says of the head.
use crate::error::ErrorView;
use crate::hash::Sha256;
use crate::publication::{
    outcome_of, replay, ActionView, EventView, GenesisActionView, GenesisPublication, PinFacts,
    Publication, Replay, WriteOutcome,
};
use crate::storage::{
    confirm, content_version, head_key, head_version, reports, takes_effect,
    validate_range_request, without_fault, written, ConditionalWriteOutcome, InjectedConditional,
    ObjectMetadata, ObjectVersion, StorageError, StoreView, StoredObject, StoredRange,
};
use vstd::prelude::*;
use std::ops::Range;

verus! {

/// A key under which nothing is stored is free; one under which the same request is
/// stored has been answered; any other is taken.
pub proof fn lemma_key_is_free_answered_or_taken(
    stored: Option<Sha256>,
    intent: Sha256,
    r: Replay,
)
    requires
        call_ensures(replay, (stored, intent), r),
    ensures
        r is Absent <==> stored is None,
        r is Found <==> stored == Some(intent),
        r is Conflict <==> stored is Some && stored != Some(intent),
{
}

/// An answer of the store is taken as it was given.
pub proof fn lemma_answer_is_taken(outcome: ConditionalWriteOutcome, kind: WriteOutcome)
    requires
        call_ensures(outcome_of, (&outcome,), kind),
    ensures
        kind is Applied <==> outcome is Applied,
        kind is Conflict <==> outcome is Conflict,
        kind is Indeterminate <==> outcome is Indeterminate,
{
}

pub open spec fn after(publication: Publication, event: EventView) -> Publication {
    publication.next(event).0
}

pub open spec fn answer(publication: Publication, event: EventView) -> ActionView {
    publication.next(event).1
}

/// A table as it was, with nothing stored under the request's key.
pub open spec fn fresh(facts: PinFacts) -> bool {
    facts.same_table && facts.replay is Absent
}

/// Where nobody else writes, a commit is built, stored and swapped in once, and that
/// is reported.
pub proof fn lemma_undisturbed_commit_is_published(start: Publication, facts: PinFacts)
    requires
        start.phase is Parent,
        fresh(facts),
    ensures
        ({
            let pinned = EventView::Pinned(facts);
            let built = after(start, pinned);
            let stored = after(built, EventView::Stored);
            let swapped = EventView::Swapped(WriteOutcome::Applied);
            &&& answer(start, pinned) is Build
            &&& built.expects(EventView::Stored)
            &&& answer(built, EventView::Stored) is Swap
            &&& stored.expects(swapped)
            &&& answer(stored, swapped) is Published
            &&& after(stored, swapped).phase is Finished
        }),
{
}

/// Whatever a publication waits for a pin for: another table under the name ends it
/// with a conflict, and a key that another request has taken is reported as such.
pub proof fn lemma_pin_can_end_a_publication(publication: Publication, facts: PinFacts)
    requires
        publication.expects(EventView::Pinned(facts)),
    ensures
        !facts.same_table ==> (answer(publication, EventView::Pinned(facts)) matches
            ActionView::Fail(e) && e is SemanticConflict),
        facts.same_table && facts.replay is Conflict ==> answer(
            publication,
            EventView::Pinned(facts),
        ) == ActionView::Fail(ErrorView::IdempotencyConflict),
        facts.same_table && facts.replay is Found ==> answer(
            publication,
            EventView::Pinned(facts),
        ) is Replayed,
{
}

/// After a lost race the commit is built anew on the winner, as often as the policy
/// says, and not more often; then the swap is tried again.
pub proof fn lemma_lost_race_is_run_again(publication: Publication, facts: PinFacts)
    requires
        publication.wf(),
        publication.phase is Swap,
        fresh(facts),
    ensures
        ({
            let lost = EventView::Swapped(WriteOutcome::Conflict);
            let pinned = EventView::Pinned(facts);
            let waiting = after(publication, lost);
            let next = after(waiting, pinned);
            &&& answer(publication, lost) is Pin
            &&& waiting.expects(pinned)
            &&& publication.rebases < publication.policy.maximum_rebases ==> {
                &&& answer(waiting, pinned) is Build
                &&& next.rebases == publication.rebases + 1
                &&& next.expects(EventView::Stored)
                &&& answer(next, EventView::Stored) is Swap
            }
            &&& publication.rebases >= publication.policy.maximum_rebases ==> answer(
                waiting,
                pinned,
            ) == ActionView::Fail(ErrorView::RebaseExhausted)
        }),
{
}

/// After a lost answer the head is looked at: where it is still the parent, the same
/// swap is tried again, as often as the policy says; after that the outcome is
/// reported as unknown.
pub proof fn lemma_lost_answer_is_looked_up(publication: Publication, facts: PinFacts)
    requires
        publication.wf(),
        publication.phase is Swap,
        fresh(facts),
        facts.unchanged,
    ensures
        ({
            let lost = EventView::Swapped(WriteOutcome::Indeterminate);
            let pinned = EventView::Pinned(facts);
            let waiting = after(publication, lost);
            &&& answer(publication, lost) is Pin
            &&& waiting.expects(pinned)
            &&& waiting.indeterminate == publication.indeterminate + 1
            &&& publication.indeterminate
                < publication.policy.maximum_indeterminate_reconciliations ==> {
                &&& answer(waiting, pinned) is Swap
                &&& after(waiting, pinned).expects(lost)
            }
            &&& publication.indeterminate
                >= publication.policy.maximum_indeterminate_reconciliations ==> answer(
                waiting,
                pinned,
            ) == ActionView::Fail(ErrorView::PublicationIndeterminate)
        }),
{
}

/// A failure to build is reported as it is, and nothing is swapped.
pub proof fn lemma_failed_build_is_reported(publication: Publication, e: ErrorView)
    requires
        publication.phase is Candidate,
    ensures
        answer(publication, EventView::BuildFailed(e)) == ActionView::Fail(e),
        after(publication, EventView::BuildFailed(e)).phase is Finished,
{
}

/// The first head of a table: a write that took effect is done, one that lost is
/// compared with what is there, and there is no table yet only where it is the same.
pub proof fn lemma_first_head(publication: GenesisPublication, same: bool)
    ensures
        publication.after_write(WriteOutcome::Applied).1 is Done,
        publication.after_write(WriteOutcome::Conflict).1 is ReadHead,
        publication.after_write(WriteOutcome::Indeterminate).1 is ReadHead,
        publication.after_read(Ok(same)) == (if same {
            GenesisActionView::Done
        } else {
            GenesisActionView::Fail(ErrorView::AlreadyExists)
        }),
{
}

/// Without faults a store writes the head exactly if it is as expected, and says so;
/// otherwise it names the head that is there. What it wrote is the head, under the
/// version that it named.
pub proof fn lemma_head_is_swapped(
    store: StoreView,
    expected: Option<Seq<char>>,
    bytes: Seq<u8>,
    outcome: ConditionalWriteOutcome,
)
    requires
        store.faults.len() == 0,
        reports(outcome, store, expected, bytes),
    ensures
        takes_effect(store, expected) <==> head_version(store) == expected,
        outcome is Applied <==> takes_effect(store, expected),
        outcome is Conflict <==> !takes_effect(store, expected),
        outcome matches ConditionalWriteOutcome::Applied { new_version } ==> head_version(
            written(store, head_key(), bytes),
        ) == Some(new_version@) && written(store, head_key(), bytes).objects["_otmp/HEAD"@].bytes
            == bytes,
        outcome matches ConditionalWriteOutcome::Conflict { current_version } ==> match
            current_version {
            None => !store.objects.contains_key("_otmp/HEAD"@),
            Some(version) => store.objects.contains_key("_otmp/HEAD"@) && version@
                == content_version(store.objects["_otmp/HEAD"@].bytes),
        },
        without_fault(store) == store,
{
}

/// A fault hits one write. One before the write, or a conflict, leaves the head alone;
/// one after it does not.
pub proof fn lemma_fault_hits_one_write(
    store: StoreView,
    expected: Option<Seq<char>>,
    bytes: Seq<u8>,
    outcome: ConditionalWriteOutcome,
)
    requires
        store.faults.len() > 0,
        head_version(store) == expected,
        reports(outcome, store, expected, bytes),
    ensures
        without_fault(store).faults == store.faults.skip(1),
        without_fault(store).objects == store.objects,
        store.faults[0] == InjectedConditional::IndeterminateBefore ==> outcome is Indeterminate
            && !takes_effect(store, expected),
        store.faults[0] == InjectedConditional::IndeterminateAfter ==> outcome is Indeterminate
            && takes_effect(store, expected),
        store.faults[0] == InjectedConditional::Conflict ==> outcome is Conflict
            && !takes_effect(store, expected),
{
}

/// A range may be asked for exactly if it holds a byte, lies within the object and is
/// no longer than sixty-four mebibytes.
pub proof fn lemma_asked_ranges(
    metadata: ObjectMetadata,
    range: Range<u64>,
    r: Result<(), StorageError>,
)
    requires
        call_ensures(validate_range_request, (&metadata, &range), r),
    ensures
        r is Ok <==> range.start < range.end && range.end <= metadata.length && range.end
            - range.start <= 0x400_0000,
{
}

/// A response is taken exactly if it is the range that was asked for, whole, of the
/// version that was asked for.
pub proof fn lemma_taken_ranges(
    response: StoredRange,
    expected: ObjectMetadata,
    range: Range<u64>,
    r: Result<(), StorageError>,
)
    requires
        call_ensures(StoredRange::validate, (&response, &expected, &range), r),
    ensures
        r is Ok ==> {
            &&& range.start < range.end
            &&& range.end <= expected.length
            &&& response.range.start == range.start
            &&& response.range.end == range.end
            &&& response.bytes@.len() == range.end - range.start
            &&& response.metadata@ == expected@
        },
        range.start < range.end && range.end <= expected.length && range.end - range.start
            <= 0x400_0000 && response.range == range
            && response.bytes@.len() == range.end - range.start && response.metadata@ == expected@
            ==> r is Ok,
{
}

/// An object is confirmed exactly if it has the length and the digest.
pub proof fn lemma_confirmed_objects(
    key: String,
    object: StoredObject,
    sha256: Sha256,
    length: u64,
    r: Result<ObjectVersion, StorageError>,
)
    requires
        call_ensures(confirm, (&key, object, sha256, length), r),
    ensures
        r is Ok <==> object.bytes@.len() == length && crate::hash::sha256_of(object.bytes@)
            == sha256@,
        r matches Ok(version) ==> version@ == object.version@,
{
}

} // verus!

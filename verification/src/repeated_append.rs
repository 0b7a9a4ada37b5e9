//! What an append answers when it is asked for again, right after it was committed
//! or after any number of later commits.
use crate::append::{AppendRequest, VerifiedStagedFile};
use crate::append_image::{append_image_is, text_given, RowCodec};
use crate::append_rows::{appended, AppendImage};
use crate::candidate::{
    append_commit_is, append_result_is, result_document, ParentFacts, PreparedAppend,
};
use crate::error::ErrorView;
use crate::hash::{Id, Sha256};
use crate::projection::intent_row;
use crate::publication::{replay_of, ActionView, EventView, PinFacts, Publication};
use crate::replay::{committed_rows, ReplayedCommit};
use crate::round_trip::{fresh, lemma_append_is_remembered, stored_intent};
use crate::tables::{ImageRows, IntentRow};
use crate::value::members_view;
use vstd::prelude::*;

verus! {

/// A commit was made between two states of a table: an append, or a metadata commit
/// whose operations leave the stored intents alone.
pub open spec fn committed_between(before: ImageRows, after: ImageRows) -> bool {
    ||| exists|input: AppendImage| #[trigger] appended(after, before, input)
    ||| exists|changed: ImageRows, commit: ReplayedCommit|
        changed.intents@ == before.intents@ && #[trigger] committed_rows(changed, after, commit)
}

/// States of a table, each one commit after the one before it.
pub open spec fn history(states: Seq<ImageRows>) -> bool {
    forall|i: int, j: int|
        #![trigger states[i], states[j]]
        0 <= i < states.len() && j == i + 1 && j < states.len() ==> committed_between(
            states[i],
            states[j],
        )
}

proof fn lemma_intent_stays(intents: Seq<IntentRow>, more: Seq<IntentRow>, key: Seq<char>)
    requires
        intent_row(intents, key) is Some,
    ensures
        intent_row(intents + more, key) == intent_row(intents, key),
    decreases intents.len(),
{
    let all = intents + more;
    assert(all[0] == intents[0]);
    if intents[0].key@ != key {
        assert(all.skip(1) =~= intents.skip(1) + more);
        lemma_intent_stays(intents.skip(1), more, key);
    }
}

proof fn lemma_commit_keeps_intents(before: ImageRows, after: ImageRows, key: Seq<char>)
    requires
        committed_between(before, after),
        intent_row(before.intents@, key) is Some,
    ensures
        intent_row(after.intents@, key) == intent_row(before.intents@, key),
{
    let last = seq![after.intents@.last()];
    assert(after.intents@ =~= before.intents@ + last);
    lemma_intent_stays(before.intents@, last, key);
}

/// What was stored under a key stays stored under it: no later commit changes it.
pub proof fn lemma_stored_intents_stay(states: Seq<ImageRows>, key: Seq<char>, n: int)
    requires
        history(states),
        0 <= n < states.len(),
        intent_row(states[0].intents@, key) is Some,
    ensures
        intent_row(states[n].intents@, key) == intent_row(states[0].intents@, key),
    decreases n,
{
    if n > 0 {
        lemma_stored_intents_stay(states, key, n - 1);
        assert(committed_between(states[n - 1], states[n]));
        lemma_commit_keeps_intents(states[n - 1], states[n], key);
    }
}

/// What a pin on a state of the table shows to a request under a key.
pub open spec fn pinned(
    rows: ImageRows,
    key: Seq<char>,
    intent: Sha256,
    unchanged: bool,
) -> PinFacts {
    PinFacts { same_table: true, replay: replay_of(stored_intent(rows, key), intent), unchanged }
}

/// An append that is asked for again is answered by what was stored for it, at
/// once and after any number of later commits: the publication ends on the first
/// pin, nothing is built, no head is swapped, and the stored result is the text of
/// the first one, with its version, commit, snapshot and files. Another request
/// under its key is refused.
pub proof fn lemma_append_is_answered_again<C: RowCodec>(
    codec: C,
    request: AppendRequest,
    staged: Seq<VerifiedStagedFile>,
    logical_hash: Sha256,
    parent: ParentFacts,
    commit_id: Id,
    snapshot_id: Id,
    prepared: PreparedAppend,
    input: AppendImage,
    before: ImageRows,
    states: Seq<ImageRows>,
    n: int,
    publication: Publication,
    intent: Sha256,
    unchanged: bool,
)
    requires
        append_result_is(prepared.result, request, staged, parent, commit_id, snapshot_id),
        append_commit_is(
            prepared.commit,
            request,
            staged,
            logical_hash,
            parent,
            prepared.result,
            members_view(prepared.summary@),
        ),
        append_image_is(codec, input, request, staged, parent, prepared),
        fresh(before, input),
        history(states),
        0 <= n < states.len(),
        appended(states[0], before, input),
        publication.phase is Parent,
    ensures
        ({
            let facts = pinned(states[n], request.idempotency_key@, intent, unchanged);
            publication.next(EventView::Pinned(facts)) == (
                publication.finished(),
                if intent == logical_hash {
                    ActionView::Replayed
                } else {
                    ActionView::Fail(ErrorView::IdempotencyConflict)
                },
            )
        }),
        intent_row(states[n].intents@, request.idempotency_key@) matches Some(row) && row.intent
            == logical_hash && text_given(
            codec,
            result_document(prepared.result),
            row.result_json@,
        ),
        prepared.result.table_version == parent.head.table_version + 1,
        prepared.result.commit_id == commit_id,
        prepared.result.snapshot_id == snapshot_id,
        prepared.result.files@.len() == staged.len(),
        forall|i: int|
            0 <= i < staged.len() ==> (#[trigger] prepared.result.files@[i]).file_id
                == staged[i].file_id,
{
    lemma_append_is_remembered(before, states[0], input, request.idempotency_key@);
    lemma_stored_intents_stay(states, request.idempotency_key@, n);
}

} // verus!

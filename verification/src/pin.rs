//! Pinning: what ties a head, its commit, its generation and their objects
//! together, and the walk back through retained generations.
use crate::append::SourceFingerprint;
use crate::catalog::{ancestry, holds_id, RefType};
use crate::documents::{
    commit_accepted, copy_texts, generation_accepted, head_accepted, same_reference, same_texts,
    supports, DocumentCodec, Generation, Head, ObjectReference,
    SemanticCommit,
};
use crate::error::{corrupt, ErrorView, RuntimeError};
use crate::hash::{sha256_of, Id, Sha256};
use crate::storage::{CreatedObject, ObjectVersion, StorageError};
use crate::text::{joined, texts_view};
use crate::value::{find_member, member_of, text, values_view, CanonicalValue, ValueView};
use vstd::prelude::*;

verus! {

/// Whether a commit says what the head says of it.
pub open spec fn commit_agrees(head: Head, commit: SemanticCommit) -> bool {
    &&& commit.table_id == head.table_id
    &&& commit.table_version == head.table_version
    &&& commit.semantic_state_sha256 == head.semantic_state_sha256
    &&& texts_view(commit.required_reader_features_after_commit@) == texts_view(
        head.required_reader_features@,
    )
    &&& texts_view(commit.required_writer_features_after_commit@) == texts_view(
        head.required_writer_features@,
    )
}

/// Whether a generation says what the head says of it.
pub open spec fn generation_agrees(head: Head, generation: Generation) -> bool {
    &&& generation.table_id == head.table_id
    &&& generation.table_version == head.table_version
    &&& generation.semantic_state_sha256 == head.semantic_state_sha256
    &&& generation.semantic_commit@ == head.semantic_commit@
}

/// A state that the codec gives for the commit.
pub open spec fn state_given<C: DocumentCodec>(
    codec: C,
    commit: SemanticCommit,
    r: Result<Sha256, RuntimeError>,
) -> bool {
    match commit.previous_semantic_state_sha256 {
        Some(previous) => call_ensures(C::next_state, (&codec, previous, &commit), r),
        None => call_ensures(C::genesis_state, (&codec, &commit), r),
    }
}

/// The digest that the protocol gives to a commit's state.
pub fn recomputed_state<C: DocumentCodec>(codec: &C, commit: &SemanticCommit) -> (r: Result<
    Sha256,
    RuntimeError,
>)
    ensures
        state_given(*codec, *commit, r),
{
    match commit.previous_semantic_state_sha256 {
        Some(previous) => codec.next_state(previous, commit),
        None => codec.genesis_state(commit),
    }
}

/// Checks the head and its commit against each other.
pub fn check_commit<C: DocumentCodec>(codec: &C, head: &Head, commit: &SemanticCommit) -> (r:
    Result<(), RuntimeError>)
    ensures
        match r {
            Ok(()) => {
                &&& head_accepted(*codec, *head)
                &&& commit_accepted(*codec, *commit)
                &&& commit_agrees(*head, *commit)
                &&& state_given(*codec, *commit, Ok(commit.semantic_state_sha256))
            },
            Err(e) => {
                let forms = head_accepted(*codec, *head) && commit_accepted(*codec, *commit);
                ||| call_ensures(C::validate_head, (codec, head), Err::<(), RuntimeError>(e))
                ||| head_accepted(*codec, *head) && call_ensures(
                    C::validate_commit,
                    (codec, commit),
                    Err::<(), RuntimeError>(e),
                )
                ||| {
                    &&& forms
                    &&& !commit_agrees(*head, *commit)
                    &&& e@ == ErrorView::Corrupt("semantic commit does not match HEAD"@)
                }
                ||| forms && commit_agrees(*head, *commit) && state_given(*codec, *commit, Err(e))
                ||| {
                    &&& forms
                    &&& commit_agrees(*head, *commit)
                    &&& e@ == ErrorView::Corrupt("semantic state hash mismatch"@)
                    &&& exists|state: Sha256|
                        state != commit.semantic_state_sha256 && #[trigger] state_given(
                            *codec,
                            *commit,
                            Ok(state),
                        )
                }
            },
        },
{
    let verdict = codec.validate_head(head);
    if let Err(e) = verdict {
        return Err(e);
    }
    assert(head_accepted(*codec, *head));
    let verdict = codec.validate_commit(commit);
    if let Err(e) = verdict {
        return Err(e);
    }
    assert(commit_accepted(*codec, *commit));
    if !(commit.table_id == head.table_id) || commit.table_version != head.table_version || !(
    commit.semantic_state_sha256 == head.semantic_state_sha256) || !same_texts(
        &commit.required_reader_features_after_commit,
        &head.required_reader_features,
    ) || !same_texts(
        &commit.required_writer_features_after_commit,
        &head.required_writer_features,
    ) {
        return Err(corrupt("semantic commit does not match HEAD"));
    }
    match recomputed_state(codec, commit) {
        Err(e) => Err(e),
        Ok(state) => {
            if !(state == commit.semantic_state_sha256) {
                assert(state_given(*codec, *commit, Ok(state)));
                return Err(corrupt("semantic state hash mismatch"));
            }
            Ok(())
        },
    }
}

/// Checks the head and its generation against each other.
pub fn check_generation<C: DocumentCodec>(codec: &C, head: &Head, generation: &Generation) -> (r:
    Result<(), RuntimeError>)
    ensures
        match r {
            Ok(()) => {
                &&& generation_accepted(*codec, *generation)
                &&& generation_agrees(*head, *generation)
            },
            Err(e) => {
                ||| call_ensures(
                    C::validate_generation,
                    (codec, generation),
                    Err::<(), RuntimeError>(e),
                )
                ||| {
                    &&& generation_accepted(*codec, *generation)
                    &&& !generation_agrees(*head, *generation)
                    &&& e@ == ErrorView::Corrupt("generation does not match HEAD"@)
                }
            },
        },
{
    let verdict = codec.validate_generation(generation);
    if let Err(e) = verdict {
        return Err(e);
    }
    assert(generation_accepted(*codec, *generation));
    if !(generation.table_id == head.table_id) || generation.table_version != head.table_version
        || !(generation.semantic_state_sha256 == head.semantic_state_sha256) || !same_reference(
        &generation.semantic_commit,
        &head.semantic_commit,
    ) {
        return Err(corrupt("generation does not match HEAD"));
    }
    Ok(())
}

/// Whether a generation can be the physical parent of another.
pub open spec fn edge_ok(child: Generation, parent: Generation, seen: Seq<Id>) -> bool {
    &&& !seen.contains(parent.generation_id)
    &&& child.table_id == parent.table_id
    &&& parent.table_version <= child.table_version
    &&& parent.table_version == child.table_version ==> {
        &&& parent.semantic_state_sha256 == child.semantic_state_sha256
        &&& parent.semantic_commit@ == child.semantic_commit@
    }
}

/// Checks a step back from a generation to its physical parent, and remembers
/// the parent.
pub fn validate_generation_edge(child: &Generation, parent: &Generation, seen: &mut Vec<Id>) -> (r:
    Result<(), RuntimeError>)
    ensures
        final(seen)@ == if old(seen)@.contains(parent.generation_id) {
            old(seen)@
        } else {
            old(seen)@.push(parent.generation_id)
        },
        match r {
            Ok(()) => edge_ok(*child, *parent, old(seen)@),
            Err(e) => !edge_ok(*child, *parent, old(seen)@) && e@ == ErrorView::Corrupt(
                "invalid retained generation ancestry"@,
            ),
        },
{
    let again: bool = holds_id(seen, &parent.generation_id);
    if !again {
        seen.push(parent.generation_id);
    }
    if again || !(child.table_id == parent.table_id) || parent.table_version > child.table_version
        || (parent.table_version == child.table_version && (!(parent.semantic_state_sha256
        == child.semantic_state_sha256) || !same_reference(
        &parent.semantic_commit,
        &child.semantic_commit,
    ))) {
        return Err(corrupt("invalid retained generation ancestry"));
    }
    Ok(())
}

/// A walk over accepted edges visits each generation once, and its versions
/// never rise.
pub proof fn lemma_walk_descends(chain: Seq<Generation>)
    requires
        forall|i: int|
            #![trigger chain[i]]
            0 < i < chain.len() ==> edge_ok(
                chain[i - 1],
                chain[i],
                Seq::new(i as nat, |k: int| chain[k].generation_id),
            ),
    ensures
        forall|i: int, j: int|
            #![trigger chain[i], chain[j]]
            0 <= i < j < chain.len() ==> chain[i].generation_id != chain[j].generation_id
                && chain[j].table_version <= chain[i].table_version && chain[j].table_id
                == chain[i].table_id,
    decreases chain.len(),
{
    if chain.len() > 0 {
        let shorter = chain.drop_last();
        let last = chain.len() - 1;
        assert forall|i: int| #![trigger shorter[i]] 0 < i < shorter.len() implies edge_ok(
            shorter[i - 1],
            shorter[i],
            Seq::new(i as nat, |k: int| shorter[k].generation_id),
        ) by {
            assert(chain[i] == shorter[i]);
            assert(Seq::new(i as nat, |k: int| shorter[k].generation_id) =~= Seq::new(
                i as nat,
                |k: int| chain[k].generation_id,
            ));
        }
        lemma_walk_descends(shorter);
        assert forall|i: int, j: int|
            #![trigger chain[i], chain[j]]
            0 <= i < j < chain.len() implies chain[i].generation_id != chain[j].generation_id
            && chain[j].table_version <= chain[i].table_version && chain[j].table_id
            == chain[i].table_id by {
            assert(shorter[i] == chain[i]);
            if j < last {
                assert(shorter[j] == chain[j]);
            } else {
                let ids = Seq::new(last as nat, |k: int| chain[k].generation_id);
                assert(edge_ok(chain[last - 1], chain[last], ids));
                assert(ids[i] == chain[i].generation_id);
                if i < last - 1 {
                    assert(shorter[last - 1] == chain[last - 1]);
                }
            }
        }
    }
}

/// Which version of the table's metadata is asked for.
#[derive(Clone, Copy, Debug, PartialEq, Eq, Structural)]
pub enum MetadataSelection {
    Current,
    TableVersion(u64),
}

/// What a walk to a version does next.
#[derive(Debug)]
pub enum WalkStep {
    Arrived,
    Load(ObjectReference),
}

/// The next step of a walk that started at `anchor` and stands at `version`.
pub fn metadata_step(
    selection: MetadataSelection,
    anchor: u64,
    version: u64,
    parent: &Option<ObjectReference>,
) -> (r: Result<WalkStep, RuntimeError>)
    ensures
        match (selection, r) {
            (MetadataSelection::Current, r) => r matches Ok(WalkStep::Arrived),
            (MetadataSelection::TableVersion(wanted), Ok(WalkStep::Arrived)) => wanted <= anchor
                && version == wanted,
            (MetadataSelection::TableVersion(wanted), Ok(WalkStep::Load(reference))) => wanted
                <= anchor && version > wanted && *parent == Some(reference),
            (MetadataSelection::TableVersion(wanted), Err(e)) => if wanted > anchor {
                e@ == ErrorView::MetadataVersionNotFound(wanted)
            } else {
                &&& e@ == ErrorView::HistoryNotRetained(wanted)
                &&& version < wanted || (version > wanted && *parent is None)
            },
        },
{
    match selection {
        MetadataSelection::Current => Ok(WalkStep::Arrived),
        MetadataSelection::TableVersion(wanted) => {
            if wanted > anchor {
                return Err(RuntimeError::MetadataVersionNotFound(wanted));
            }
            if version > wanted {
                return match parent {
                    None => Err(RuntimeError::HistoryNotRetained(wanted)),
                    Some(reference) => Ok(WalkStep::Load(reference.clone())),
                };
            }
            if version != wanted {
                return Err(RuntimeError::HistoryNotRetained(wanted));
            }
            Ok(WalkStep::Arrived)
        },
    }
}

/// A reference that names its length and the expected media type.
pub open spec fn well_referred(reference: ObjectReference, media_type: Seq<char>) -> bool {
    &&& reference.length is Some
    &&& reference@.media_type == Some(media_type)
}

fn is_well_referred(reference: &ObjectReference, media_type: &String) -> (ok: bool)
    ensures
        ok == well_referred(*reference, media_type@),
{
    match &reference.media_type {
        None => false,
        Some(text) => *text == *media_type && reference.length.is_some(),
    }
}

/// Checks a reference to a physical parent before it is read.
pub fn check_parent_reference(reference: &ObjectReference, media_type: &String) -> (r: Result<
    (),
    RuntimeError,
>)
    ensures
        match r {
            Ok(()) => well_referred(*reference, media_type@),
            Err(e) => !well_referred(*reference, media_type@) && e@ == ErrorView::Corrupt(
                "invalid physical parent reference"@,
            ),
        },
{
    if is_well_referred(reference, media_type) {
        Ok(())
    } else {
        Err(corrupt("invalid physical parent reference"))
    }
}

/// Checks a reference to a retained commit before it is read.
pub fn check_commit_reference(reference: &ObjectReference, media_type: &String) -> (r: Result<
    (),
    RuntimeError,
>)
    ensures
        match r {
            Ok(()) => well_referred(*reference, media_type@),
            Err(e) => !well_referred(*reference, media_type@) && e@ == ErrorView::Corrupt(
                "invalid retained commit reference"@,
            ),
        },
{
    if is_well_referred(reference, media_type) {
        Ok(())
    } else {
        Err(corrupt("invalid retained commit reference"))
    }
}

/// The head that stands for a retained generation: that of its child, with
/// what the generation and its commit say.
pub fn historical_head(
    child: &Head,
    reference: &ObjectReference,
    generation: &Generation,
    commit: &SemanticCommit,
) -> (head: Head)
    ensures
        head.protocol@ == child.protocol@,
        head.protocol_version@ == child.protocol_version@,
        head.table_id == child.table_id,
        head.root_revision == child.root_revision,
        head.table_version == generation.table_version,
        head.semantic_state_sha256 == generation.semantic_state_sha256,
        head.semantic_commit == generation.semantic_commit,
        head.metadata_generation == *reference,
        head.required_reader_features@ == commit.required_reader_features_after_commit@,
        head.required_writer_features@ == commit.required_writer_features_after_commit@,
{
    Head {
        protocol: child.protocol.clone(),
        protocol_version: child.protocol_version.clone(),
        table_id: child.table_id,
        table_version: generation.table_version,
        root_revision: child.root_revision,
        semantic_state_sha256: generation.semantic_state_sha256,
        semantic_commit: generation.semantic_commit.clone(),
        metadata_generation: reference.clone(),
        required_reader_features: copy_texts(&commit.required_reader_features_after_commit),
        required_writer_features: copy_texts(&commit.required_writer_features_after_commit),
    }
}

/// Whether a commit continues a walk back that has last seen `next`.
pub open spec fn tail_continues(commit: SemanticCommit, table_id: Id, next: Option<u64>) -> bool {
    &&& commit.table_id == table_id
    &&& next matches Some(version) ==> commit.table_version + 1 == version
}

/// Checks one commit of the walk back through all retained commits.
pub fn check_retained_commit<C: DocumentCodec>(
    codec: &C,
    commit: &SemanticCommit,
    table_id: Id,
    next: Option<u64>,
) -> (r: Result<(), RuntimeError>)
    ensures
        match r {
            Ok(()) => {
                &&& commit_accepted(*codec, *commit)
                &&& supports(*codec, commit.required_reader_features_after_commit)
                &&& tail_continues(*commit, table_id, next)
                &&& state_given(*codec, *commit, Ok(commit.semantic_state_sha256))
            },
            Err(e) => {
                let continues = commit_accepted(*codec, *commit) && tail_continues(
                    *commit,
                    table_id,
                    next,
                );
                ||| call_ensures(C::validate_commit, (codec, commit), Err::<(), RuntimeError>(e))
                ||| {
                    &&& commit_accepted(*codec, *commit)
                    &&& !continues
                    &&& e@ == ErrorView::Corrupt("invalid retained semantic ancestry"@)
                }
                ||| continues && state_given(*codec, *commit, Err(e))
                ||| {
                    &&& continues
                    &&& e@ == ErrorView::Corrupt("retained semantic state hash mismatch"@)
                    &&& exists|state: Sha256|
                        state != commit.semantic_state_sha256 && #[trigger] state_given(
                            *codec,
                            *commit,
                            Ok(state),
                        )
                }
                ||| {
                    &&& continues
                    &&& state_given(*codec, *commit, Ok(commit.semantic_state_sha256))
                    &&& call_ensures(
                        C::require_supported,
                        (codec, &commit.required_reader_features_after_commit),
                        Err::<(), RuntimeError>(e),
                    )
                }
            },
        },
{
    let verdict = codec.validate_commit(commit);
    if let Err(e) = verdict {
        return Err(e);
    }
    assert(commit_accepted(*codec, *commit));
    let continues: bool = match next {
        None => true,
        Some(version) => version > 0 && commit.table_version == version - 1,
    };
    if !(commit.table_id == table_id) || !continues {
        return Err(corrupt("invalid retained semantic ancestry"));
    }
    match recomputed_state(codec, commit) {
        Err(e) => {
            return Err(e);
        },
        Ok(state) => {
            if !(state == commit.semantic_state_sha256) {
                assert(state_given(*codec, *commit, Ok(state)));
                return Err(corrupt("retained semantic state hash mismatch"));
            }
            assert(state_given(*codec, *commit, Ok(commit.semantic_state_sha256)));
        },
    }
    let verdict = codec.require_supported(&commit.required_reader_features_after_commit);
    if let Err(e) = verdict {
        return Err(e);
    }
    assert(supports(*codec, commit.required_reader_features_after_commit));
    Ok(())
}

/// Checks that a commit builds on the state of the image before it.
pub fn check_state_chain(state: Sha256, commit: &SemanticCommit) -> (r: Result<(), RuntimeError>)
    ensures
        match r {
            Ok(()) => commit.previous_semantic_state_sha256 == Some(state),
            Err(e) => commit.previous_semantic_state_sha256 != Some(state) && e@
                == ErrorView::Corrupt("retained semantic hash chain mismatch"@),
        },
{
    match commit.previous_semantic_state_sha256 {
        Some(previous) => if previous == state {
            Ok(())
        } else {
            Err(corrupt("retained semantic hash chain mismatch"))
        },
        None => Err(corrupt("retained semantic hash chain mismatch")),
    }
}

/// Whether bytes are those that a reference names.
pub open spec fn object_matches(reference: ObjectReference, bytes: Seq<u8>) -> bool {
    &&& reference.sha256@ == sha256_of(bytes)
    &&& reference.length matches Some(length) ==> length == bytes.len()
}

/// Checks an object that was read against the reference to it.
pub fn check_object(reference: &ObjectReference, bytes: &Vec<u8>) -> (r: Result<(), RuntimeError>)
    ensures
        match r {
            Ok(()) => object_matches(*reference, bytes@),
            Err(e) => !object_matches(*reference, bytes@) && e@ == ErrorView::Corrupt(
                "object hash or length mismatch: "@ + reference.uri@,
            ),
        },
{
    let long: bool = match reference.length {
        None => false,
        Some(length) => length != bytes.len() as u64,
    };
    if !reference.sha256.matches(bytes.as_slice()) || long {
        return Err(
            RuntimeError::Corrupt(
                joined("object hash or length mismatch: ", reference.uri.as_str()),
            ),
        );
    }
    Ok(())
}

/// Checks a reference to an object whose digest and length are known already.
pub fn check_known_object(reference: &ObjectReference, sha256: Sha256, length: u64) -> (r: Result<
    (),
    RuntimeError,
>)
    ensures
        match r {
            Ok(()) => known_matches(*reference, sha256, length),
            Err(e) => !known_matches(*reference, sha256, length) && e@ == ErrorView::Corrupt(
                "conflicting object reference: "@ + reference.uri@,
            ),
        },
{
    let long: bool = match reference.length {
        None => false,
        Some(n) => n != length,
    };
    if !(sha256 == reference.sha256) || long {
        return Err(
            RuntimeError::Corrupt(joined("conflicting object reference: ", reference.uri.as_str())),
        );
    }
    Ok(())
}

/// What a verification does with an object that is referred to.
#[derive(Clone, Copy, Debug, PartialEq, Eq, Structural)]
pub enum ObjectStep {
    /// It was read before, and is as the reference says.
    Known,
    Read,
}

/// The step at a reference. `known` is the digest and the length of the object,
/// where it was read before: then it is not read again.
pub fn object_step(reference: &ObjectReference, known: Option<(Sha256, u64)>) -> (r: Result<
    ObjectStep,
    RuntimeError,
>)
    ensures
        match known {
            None => r matches Ok(ObjectStep::Read),
            Some((sha256, length)) => match r {
                Ok(step) => step is Known && known_matches(*reference, sha256, length),
                Err(e) => !known_matches(*reference, sha256, length) && e@ == ErrorView::Corrupt(
                    "conflicting object reference: "@ + reference.uri@,
                ),
            },
        },
{
    match known {
        None => Ok(ObjectStep::Read),
        Some((sha256, length)) => match check_known_object(reference, sha256, length) {
            Err(e) => Err(e),
            Ok(()) => Ok(ObjectStep::Known),
        },
    }
}

pub open spec fn known_matches(reference: ObjectReference, sha256: Sha256, length: u64) -> bool {
    &&& sha256 == reference.sha256
    &&& reference.length matches Some(n) ==> n == length
}

/// An object that matched one reference matches another that agrees on digest
/// and length, so it need not be read again.
pub proof fn lemma_known_object(
    first: ObjectReference,
    second: ObjectReference,
    bytes: Seq<u8>,
)
    requires
        object_matches(first, bytes),
        bytes.len() <= u64::MAX,
        known_matches(second, first.sha256, bytes.len() as u64),
    ensures
        object_matches(second, bytes),
{
}

/// After an attempt to create an immutable object: what has to be read back.
pub fn readback_of(created: Result<CreatedObject, StorageError>, bytes: &[u8]) -> (r: Result<
    (Sha256, u64),
    RuntimeError,
>)
    ensures
        match (created, r) {
            (Ok(created), r) => r == Ok::<(Sha256, u64), RuntimeError>(
                (created.sha256, created.length),
            ),
            (Err(StorageError::ImmutableConflict(_)), r) => r matches Ok(expected) && expected.0@
                == sha256_of(bytes@) && expected.1 == bytes@.len(),
            (Err(error), r) => r == Err::<(Sha256, u64), RuntimeError>(
                RuntimeError::Storage(error),
            ),
        },
{
    match created {
        Ok(created) => Ok((created.sha256, created.length)),
        Err(StorageError::ImmutableConflict(_)) => Ok((Sha256::digest(bytes), bytes.len() as u64)),
        Err(error) => Err(RuntimeError::Storage(error)),
    }
}

/// What follows the attempt to copy a file into the store.
#[derive(Debug)]
pub enum StageStep {
    /// Nothing was stored.
    Fail(RuntimeError),
    /// Remove what was stored, then fail.
    Remove(RuntimeError),
    /// Read back what was stored.
    ReadBack,
}

/// Compares a stored file with its fingerprint.
pub fn after_copy(
    fingerprint: &SourceFingerprint,
    created: &Result<CreatedObject, StorageError>,
) -> (step: StageStep)
    ensures
        match created {
            Err(StorageError::MaximumLengthExceeded) => step matches StageStep::Fail(e) && e@
                == ErrorView::FingerprintMismatch,
            Err(error) => step matches StageStep::Fail(e) && e@ == ErrorView::Storage(error@),
            Ok(created) => if created.length == fingerprint.length && created.sha256
                == fingerprint.sha256 {
                step is ReadBack
            } else {
                step matches StageStep::Remove(e) && e@ == ErrorView::FingerprintMismatch
            },
        },
{
    match created {
        Err(error) => StageStep::Fail(storage_failure(error)),
        Ok(created) => if created.length == fingerprint.length && created.sha256
            == fingerprint.sha256 {
            StageStep::ReadBack
        } else {
            StageStep::Remove(RuntimeError::FingerprintMismatch)
        },
    }
}

fn storage_failure(error: &StorageError) -> (e: RuntimeError)
    ensures
        e@ == if error is MaximumLengthExceeded {
            ErrorView::FingerprintMismatch
        } else {
            ErrorView::Storage(error@)
        },
{
    match error {
        StorageError::MaximumLengthExceeded => RuntimeError::FingerprintMismatch,
        StorageError::NotFound(m) => RuntimeError::Storage(StorageError::NotFound(m.clone())),
        StorageError::ImmutableConflict(m) => RuntimeError::Storage(
            StorageError::ImmutableConflict(m.clone()),
        ),
        StorageError::UnsafeKey(m) => RuntimeError::Storage(StorageError::UnsafeKey(m.clone())),
        StorageError::Io(m) => RuntimeError::Storage(StorageError::Io(m.clone())),
        StorageError::VerificationFailed(m) => RuntimeError::Storage(
            StorageError::VerificationFailed(m.clone()),
        ),
        StorageError::Injected(m) => RuntimeError::Storage(StorageError::Injected(m.clone())),
        StorageError::Unsupported(m) => RuntimeError::Storage(StorageError::Unsupported(m.clone())),
    }
}

/// Compares what was read back with what was stored. An error means that the
/// stored file has to be removed.
pub fn after_readback(
    stored: &ObjectVersion,
    readback: Result<ObjectVersion, StorageError>,
) -> (r: Result<(), RuntimeError>)
    ensures
        match (readback, r) {
            (Ok(version), Ok(())) => version@ == stored@,
            (Ok(version), Err(e)) => version@ != stored@ && e@ == ErrorView::FingerprintMismatch,
            (Err(StorageError::VerificationFailed(_)), r) => r matches Err(e) && e@
                == ErrorView::FingerprintMismatch,
            (Err(error), r) => r == Err::<(), RuntimeError>(RuntimeError::Storage(error)),
        },
{
    match readback {
        Ok(version) => if version == *stored {
            Ok(())
        } else {
            Err(RuntimeError::FingerprintMismatch)
        },
        Err(StorageError::VerificationFailed(_)) => Err(RuntimeError::FingerprintMismatch),
        Err(error) => Err(RuntimeError::Storage(error)),
    }
}

/// The tips between which a rebase has to find a line of descent.
#[derive(Debug)]
pub struct Descent {
    pub from: Option<Id>,
    pub to: Id,
}

pub open spec fn conflict(message: Seq<char>) -> ErrorView {
    ErrorView::SemanticConflict(message)
}

/// Compares the target of an append before and after others published.
pub fn rebase_tips(
    original: &Option<(RefType, Option<Id>)>,
    current: &Option<(RefType, Option<Id>)>,
) -> (r: Result<Option<Descent>, RuntimeError>)
    ensures
        match (*original, *current) {
            (Some((RefType::Branch, old_tip)), Some((RefType::Branch, tip))) => match old_tip {
                None => r matches Ok(None),
                Some(id) => if tip == Some(id) {
                    r matches Ok(None)
                } else {
                    r matches Ok(Some(descent)) && descent.from == tip && descent.to == id
                },
            },
            (Some((RefType::Branch, _)), _) => r matches Err(e) && e@ == conflict(
                "append target removed"@,
            ),
            _ => r matches Err(e) && e@ == conflict("append target was not a branch"@),
        },
{
    let before: Option<Id> = match original {
        Some((RefType::Branch, tip)) => *tip,
        _ => {
            return Err(
                RuntimeError::SemanticConflict("append target was not a branch".to_owned()),
            );
        },
    };
    let tip: Option<Id> = match current {
        Some((RefType::Branch, tip)) => *tip,
        _ => {
            return Err(RuntimeError::SemanticConflict("append target removed".to_owned()));
        },
    };
    match before {
        None => Ok(None),
        Some(id) => {
            let same: bool = match tip {
                None => false,
                Some(now) => now == id,
            };
            if same {
                Ok(None)
            } else {
                Ok(Some(Descent { from: tip, to: id }))
            }
        },
    }
}

/// What an operation of another commit does to an append on `name`.
pub open spec fn operation_conflict(name: Seq<char>, operation: ValueView) -> Option<ErrorView> {
    match operation {
        ValueView::Object(members) => if member_of(members, "ref"@) == Some(ValueView::Text(name))
            && member_of(members, "type"@) != Some(ValueView::Text("commit_snapshot"@)) {
            Some(conflict("target ref changed during append"@))
        } else if member_of(members, "type"@) == Some(ValueView::Text("set_current_schema"@)) {
            Some(conflict("current schema changed during append"@))
        } else {
            None
        },
        _ => None,
    }
}

/// The first conflict of a list of operations.
pub open spec fn operations_conflict(name: Seq<char>, operations: Seq<ValueView>) -> Option<
    ErrorView,
>
    decreases operations.len(),
{
    if operations.len() == 0 {
        None
    } else {
        match operation_conflict(name, operations[0]) {
            Some(e) => Some(e),
            None => operations_conflict(name, operations.skip(1)),
        }
    }
}

fn is_text(value: Option<&CanonicalValue>, expected: &str) -> (same: bool)
    ensures
        same == match value {
            None => false,
            Some(v) => v@ == ValueView::Text(expected@),
        },
{
    match value {
        Some(CanonicalValue::Text(text)) => crate::text::reads(text, expected),
        _ => false,
    }
}

/// Looks for an operation that an append on `name` cannot follow.
pub fn check_operations(name: &String, operations: &Vec<CanonicalValue>) -> (r: Result<
    (),
    RuntimeError,
>)
    ensures
        match r {
            Ok(()) => operations_conflict(name@, values_view(operations@)) is None,
            Err(e) => operations_conflict(name@, values_view(operations@)) == Some(e@),
        },
{
    let ghost all = values_view(operations@);
    proof {
        crate::value::lemma_values_view(operations@);
        assert(all.skip(0) =~= all);
    }
    let mut i: usize = 0;
    while i < operations.len()
        invariant
            i <= operations@.len(),
            all == values_view(operations@),
            all.len() == operations@.len(),
            forall|k: int| 0 <= k < all.len() ==> #[trigger] all[k] == operations@[k]@,
            operations_conflict(name@, all) == operations_conflict(name@, all.skip(i as int)),
        decreases operations@.len() - i,
    {
        assert(all.skip(i as int).skip(1) =~= all.skip(i + 1));
        assert(all.skip(i as int)[0] == operations@[i as int]@);
        if let CanonicalValue::Object(members) = &operations[i] {
            if is_text(find_member(members, "ref"), name.as_str()) && !is_text(
                find_member(members, "type"),
                "commit_snapshot",
            ) {
                return Err(
                    RuntimeError::SemanticConflict("target ref changed during append".to_owned()),
                );
            }
            if is_text(find_member(members, "type"), "set_current_schema") {
                return Err(
                    RuntimeError::SemanticConflict(
                        "current schema changed during append".to_owned(),
                    ),
                );
            }
        }
        i = i + 1;
    }
    Ok(())
}

/// The operations of one commit, with the version that it made.
#[derive(Debug)]
pub struct CommitOperations {
    pub version: u64,
    pub operations: Vec<CanonicalValue>,
}

/// Whether an append on `name` may follow the commits after `version`, which
/// have to come one by one. The last version is the answer.
pub open spec fn history_check(
    name: Seq<char>,
    version: u64,
    commits: Seq<CommitOperations>,
) -> Result<u64, ErrorView>
    decreases commits.len(),
{
    if commits.len() == 0 {
        Ok(version)
    } else if commits[0].version != version + 1 {
        Err(ErrorView::Corrupt("commit operation history is not contiguous"@))
    } else {
        match operations_conflict(name, values_view(commits[0].operations@)) {
            Some(e) => Err(e),
            None => history_check(name, commits[0].version, commits.skip(1)),
        }
    }
}

/// Checks one page of the commits after `version`.
pub fn check_operations_page(name: &String, version: u64, page: &Vec<CommitOperations>) -> (r:
    Result<u64, RuntimeError>)
    ensures
        match r {
            Ok(last) => page@.len() > 0 && history_check(name@, version, page@) == Ok::<
                u64,
                ErrorView,
            >(last),
            Err(e) => if page@.len() == 0 {
                e@ == ErrorView::Corrupt("commit operation history is incomplete"@)
            } else {
                history_check(name@, version, page@) == Err::<u64, ErrorView>(e@)
            },
        },
{
    if page.len() == 0 {
        return Err(corrupt("commit operation history is incomplete"));
    }
    let mut last: u64 = version;
    let mut i: usize = 0;
    assert(page@.skip(0) =~= page@);
    while i < page.len()
        invariant
            i <= page@.len(),
            page@.len() > 0,
            history_check(name@, version, page@) == history_check(
                name@,
                last,
                page@.skip(i as int),
            ),
        decreases page@.len() - i,
    {
        assert(page@.skip(i as int).skip(1) =~= page@.skip(i + 1));
        assert(page@.skip(i as int)[0] == page@[i as int]);
        if last == u64::MAX || page[i].version != last + 1 {
            return Err(corrupt("commit operation history is not contiguous"));
        }
        if let Err(e) = check_operations(name, &page[i].operations) {
            return Err(e);
        }
        last = page[i].version;
        i = i + 1;
    }
    Ok(last)
}

/// A history that passes holds one commit for each version, none of which
/// conflicts with the append.
pub proof fn lemma_history_is_complete(
    name: Seq<char>,
    version: u64,
    commits: Seq<CommitOperations>,
)
    ensures
        history_check(name, version, commits) matches Ok(last) ==> {
            &&& last == version + commits.len()
            &&& forall|i: int|
                0 <= i < commits.len() ==> (#[trigger] commits[i]).version == version + 1 + i
                    && operations_conflict(name, values_view(commits[i].operations@)) is None
        },
    decreases commits.len(),
{
    if commits.len() > 0 {
        lemma_history_is_complete(name, commits[0].version, commits.skip(1));
        if let Ok(last) = history_check(name, version, commits) {
            assert forall|i: int| 0 <= i < commits.len() implies (#[trigger] commits[i]).version
                == version + 1 + i && operations_conflict(
                name,
                values_view(commits[i].operations@),
            ) is None by {
                if i > 0 {
                    assert(commits.skip(1)[i - 1] == commits[i]);
                }
            }
        }
    }
}

/// A history may be checked page by page.
pub proof fn lemma_pages_join(
    name: Seq<char>,
    version: u64,
    first: Seq<CommitOperations>,
    second: Seq<CommitOperations>,
)
    ensures
        history_check(name, version, first + second) == match history_check(name, version, first) {
            Err(e) => Err(e),
            Ok(last) => history_check(name, last, second),
        },
    decreases first.len(),
{
    if first.len() == 0 {
        assert(first + second =~= second);
    } else {
        assert((first + second).skip(1) =~= first.skip(1) + second);
        assert((first + second)[0] == first[0]);
        lemma_pages_join(name, first[0].version, first.skip(1), second);
    }
}

} // verus!

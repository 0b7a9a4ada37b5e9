//! Selecting a version of the metadata by following the links between heads,
//! generations and commits, without reading the images.
use crate::catalog::holds_id;
use crate::documents::{
    commit_accepted, generation_accepted, same_reference, same_texts, supports, DocumentCodec,
    Generation, Head, ObjectReference, SemanticCommit,
};
use crate::error::{corrupt, exhausted, ErrorView, RuntimeError};
use crate::hash::{Id, Sha256};
use crate::pin::{generation_agrees, recomputed_state, state_given, MetadataSelection};
use crate::text::texts_view;
use vstd::prelude::*;

verus! {

/// Checks the length of a head before it is read.
pub fn check_head_length(length: u64) -> (r: Result<(), RuntimeError>)
    ensures
        match r {
            Ok(()) => 0 < length <= 1048576,
            Err(e) => !(0 < length <= 1048576) && e@ == ErrorView::Corrupt(
                "HEAD exceeds the bounded reader envelope"@,
            ),
        },
{
    if length == 0 || length > 1048576 {
        return Err(corrupt("HEAD exceeds the bounded reader envelope"));
    }
    Ok(())
}

/// What a document of a given size takes of the budget.
pub fn envelope_charge(size: usize) -> (r: Result<usize, RuntimeError>)
    ensures
        match r {
            Ok(charge) => charge == size * 32 + 4096,
            Err(e) => size * 32 + 4096 > usize::MAX && e@ == ErrorView::ResourceExhausted(
                "metadata envelope allocation overflow"@,
            ),
        },
{
    if size > (usize::MAX - 4096) / 32 {
        return Err(exhausted("metadata envelope allocation overflow"));
    }
    Ok(size * 32 + 4096)
}

/// Checks the media type of a reference before it is followed.
pub fn check_media_type(reference: &ObjectReference, media_type: &String) -> (r: Result<
    (),
    RuntimeError,
>)
    ensures
        match r {
            Ok(()) => reference@.media_type == Some(media_type@),
            Err(e) => reference@.media_type != Some(media_type@) && e@ == ErrorView::Corrupt(
                "incorrect metadata object media type"@,
            ),
        },
{
    let right: bool = match &reference.media_type {
        None => false,
        Some(text) => *text == *media_type,
    };
    if !right {
        return Err(corrupt("incorrect metadata object media type"));
    }
    Ok(())
}

/// The version that a selection asks for, under a head.
pub fn wanted_version(selection: MetadataSelection, anchor: u64) -> (r: Result<u64, RuntimeError>)
    ensures
        match selection {
            MetadataSelection::Current => r == Ok::<u64, RuntimeError>(anchor),
            MetadataSelection::TableVersion(v) => if v <= anchor {
                r == Ok::<u64, RuntimeError>(v)
            } else {
                r matches Err(e) && e@ == ErrorView::MetadataVersionNotFound(v)
            },
        },
{
    match selection {
        MetadataSelection::Current => Ok(anchor),
        MetadataSelection::TableVersion(v) => if v <= anchor {
            Ok(v)
        } else {
            Err(RuntimeError::MetadataVersionNotFound(v))
        },
    }
}

pub open spec fn generation_refused<C: DocumentCodec>(
    codec: C,
    generation: Generation,
    e: RuntimeError,
) -> bool {
    call_ensures(C::validate_generation, (&codec, &generation), Err::<(), RuntimeError>(e))
}

/// Checks the generation that a head names.
pub fn take_generation<C: DocumentCodec>(codec: &C, head: &Head, generation: &Generation) -> (r:
    Result<(), RuntimeError>)
    ensures
        match r {
            Ok(()) => {
                &&& generation_accepted(*codec, *generation)
                &&& generation_agrees(*head, *generation)
            },
            Err(e) => {
                ||| generation_refused(*codec, *generation, e)
                ||| {
                    &&& generation_accepted(*codec, *generation)
                    &&& !generation_agrees(*head, *generation)
                    &&& e@ == ErrorView::Corrupt("metadata generation does not match HEAD"@)
                }
            },
        },
{
    let verdict = codec.validate_generation(generation);
    if let Err(e) = verdict {
        return Err(e);
    }
    assert(generation_accepted(*codec, *generation));
    if !(generation.table_id == head.table_id) || generation.table_version != head.table_version
        || !(generation.semantic_state_sha256 == head.semantic_state_sha256) || !same_reference(
        &generation.semantic_commit,
        &head.semantic_commit,
    ) {
        return Err(corrupt("metadata generation does not match HEAD"));
    }
    Ok(())
}

/// Whether a commit made the state that a generation holds.
pub open spec fn commit_matches(
    commit: SemanticCommit,
    table_id: Id,
    table_version: u64,
    state: Sha256,
) -> bool {
    &&& commit.table_id == table_id
    &&& commit.table_version == table_version
    &&& commit.semantic_state_sha256 == state
}

/// The first of the things that keep a commit from being accepted.
pub open spec fn commit_error<C: DocumentCodec>(
    codec: C,
    commit: SemanticCommit,
    matches_so: bool,
    e: RuntimeError,
) -> bool {
    let readers = commit.required_reader_features_after_commit;
    let writers = commit.required_writer_features_after_commit;
    ||| call_ensures(C::validate_commit, (&codec, &commit), Err::<(), RuntimeError>(e))
    ||| commit_accepted(codec, commit) && call_ensures(
        C::require_supported,
        (&codec, &readers),
        Err::<(), RuntimeError>(e),
    )
    ||| commit_accepted(codec, commit) && supports(codec, readers) && call_ensures(
        C::require_supported,
        (&codec, &writers),
        Err::<(), RuntimeError>(e),
    )
    ||| {
        &&& commit_accepted(codec, commit)
        &&& supports(codec, readers)
        &&& supports(codec, writers)
        &&& if !matches_so {
            e@ == ErrorView::Corrupt("semantic commit does not match metadata generation"@)
        } else {
            ||| state_given(codec, commit, Err(e))
            ||| {
                &&& e@ == ErrorView::Corrupt("semantic state hash mismatch"@)
                &&& exists|state: Sha256|
                    state != commit.semantic_state_sha256 && #[trigger] state_given(
                        codec,
                        commit,
                        Ok(state),
                    )
            }
        }
    }
}

/// A commit that is accepted, with features that are supported, and whose state is
/// the one that it names.
pub open spec fn commit_checked<C: DocumentCodec>(codec: C, commit: SemanticCommit) -> bool {
    &&& commit_accepted(codec, commit)
    &&& supports(codec, commit.required_reader_features_after_commit)
    &&& supports(codec, commit.required_writer_features_after_commit)
    &&& state_given(codec, commit, Ok(commit.semantic_state_sha256))
}

/// Checks a commit against the version and the state that it has to have made.
pub fn validate_commit<C: DocumentCodec>(
    codec: &C,
    commit: &SemanticCommit,
    table_id: Id,
    table_version: u64,
    state: Sha256,
) -> (r: Result<(), RuntimeError>)
    ensures
        match r {
            Ok(()) => {
                &&& commit_checked(*codec, *commit)
                &&& commit_matches(*commit, table_id, table_version, state)
            },
            Err(e) => commit_error(
                *codec,
                *commit,
                commit_matches(*commit, table_id, table_version, state),
                e,
            ),
        },
{
    let verdict = codec.validate_commit(commit);
    if let Err(e) = verdict {
        return Err(e);
    }
    assert(commit_accepted(*codec, *commit));
    let verdict = codec.require_supported(&commit.required_reader_features_after_commit);
    if let Err(e) = verdict {
        return Err(e);
    }
    assert(supports(*codec, commit.required_reader_features_after_commit));
    let verdict = codec.require_supported(&commit.required_writer_features_after_commit);
    if let Err(e) = verdict {
        return Err(e);
    }
    assert(supports(*codec, commit.required_writer_features_after_commit));
    if !(commit.table_id == table_id) || commit.table_version != table_version || !(
    commit.semantic_state_sha256 == state) {
        return Err(corrupt("semantic commit does not match metadata generation"));
    }
    match recomputed_state(codec, commit) {
        Err(e) => Err(e),
        Ok(found) => {
            if !(found == commit.semantic_state_sha256) {
                assert(state_given(*codec, *commit, Ok(found)));
                return Err(corrupt("semantic state hash mismatch"));
            }
            Ok(())
        },
    }
}

/// Checks the commit of the head's generation.
pub fn take_commit<C: DocumentCodec>(
    codec: &C,
    head: &Head,
    generation: &Generation,
    commit: &SemanticCommit,
) -> (r: Result<(), RuntimeError>)
    ensures
        ({
            let matches_so = commit_matches(
                *commit,
                generation.table_id,
                generation.table_version,
                generation.semantic_state_sha256,
            );
            let features = texts_view(commit.required_reader_features_after_commit@)
                == texts_view(head.required_reader_features@) && texts_view(
                commit.required_writer_features_after_commit@,
            ) == texts_view(head.required_writer_features@);
            match r {
                Ok(()) => {
                    &&& commit_checked(*codec, *commit)
                    &&& matches_so && features
                },
                Err(e) => {
                    ||| commit_error(*codec, *commit, matches_so, e)
                    ||| {
                        &&& commit_checked(*codec, *commit)
                        &&& matches_so && !features
                        &&& e@ == ErrorView::Corrupt("HEAD features disagree with semantic commit"@)
                    }
                },
            }
        }),
{
    if let Err(e) = validate_commit(
        codec,
        commit,
        generation.table_id,
        generation.table_version,
        generation.semantic_state_sha256,
    ) {
        return Err(e);
    }
    if !same_texts(&commit.required_reader_features_after_commit, &head.required_reader_features)
        || !same_texts(
        &commit.required_writer_features_after_commit,
        &head.required_writer_features,
    ) {
        return Err(corrupt("HEAD features disagree with semantic commit"));
    }
    Ok(())
}

/// What a walk back does at a generation.
#[derive(Debug)]
pub enum ParentStep {
    Arrived,
    Read(ObjectReference),
}

/// The next step of a walk back to a version.
pub fn next_generation(generation: &Generation, wanted: u64, seen: &mut Vec<Id>) -> (r: Result<
    ParentStep,
    RuntimeError,
>)
    ensures
        final(seen)@ == if old(seen)@.contains(generation.generation_id) {
            old(seen)@
        } else {
            old(seen)@.push(generation.generation_id)
        },
        match r {
            Ok(ParentStep::Arrived) => !old(seen)@.contains(generation.generation_id)
                && generation.table_version == wanted,
            Ok(ParentStep::Read(reference)) => {
                &&& !old(seen)@.contains(generation.generation_id)
                &&& generation.table_version != wanted
                &&& generation.physical_parent == Some(reference)
                &&& reference.length is Some
            },
            Err(e) => if old(seen)@.contains(generation.generation_id) {
                e@ == ErrorView::Corrupt("retained metadata generation cycle"@)
            } else {
                &&& generation.table_version != wanted
                &&& match generation.physical_parent {
                    None => e@ == ErrorView::HistoryNotRetained(wanted),
                    Some(reference) => reference.length is None && e@ == ErrorView::Corrupt(
                        "physical parent has no declared length"@,
                    ),
                }
            },
        },
{
    if holds_id(seen, &generation.generation_id) {
        return Err(corrupt("retained metadata generation cycle"));
    }
    seen.push(generation.generation_id);
    if generation.table_version == wanted {
        return Ok(ParentStep::Arrived);
    }
    match &generation.physical_parent {
        None => Err(RuntimeError::HistoryNotRetained(wanted)),
        Some(reference) => if reference.length.is_none() {
            Err(corrupt("physical parent has no declared length"))
        } else {
            Ok(ParentStep::Read(reference.clone()))
        },
    }
}

/// Whether a generation may be the parent of another.
pub open spec fn parent_fits(generation: Generation, parent: Generation) -> bool {
    &&& parent.table_id == generation.table_id
    &&& parent.table_version <= generation.table_version
    &&& parent.table_version == generation.table_version ==> {
        &&& parent.semantic_commit@ == generation.semantic_commit@
        &&& parent.semantic_state_sha256 == generation.semantic_state_sha256
    }
}

/// Checks the parent of a generation. Where the versions differ, the commits
/// between them have to be followed.
pub fn take_parent<C: DocumentCodec>(
    codec: &C,
    generation: &Generation,
    parent: &Generation,
    wanted: u64,
) -> (r: Result<bool, RuntimeError>)
    ensures
        match r {
            Ok(older) => {
                &&& generation_accepted(*codec, *parent)
                &&& parent_fits(*generation, *parent)
                &&& parent.table_version >= wanted
                &&& older == (parent.table_version < generation.table_version)
            },
            Err(e) => {
                ||| generation_refused(*codec, *parent, e)
                ||| {
                    &&& generation_accepted(*codec, *parent)
                    &&& !parent_fits(*generation, *parent)
                    &&& e@ == ErrorView::Corrupt("invalid retained metadata ancestry"@)
                }
                ||| {
                    &&& generation_accepted(*codec, *parent)
                    &&& parent_fits(*generation, *parent)
                    &&& parent.table_version < wanted
                    &&& e@ == ErrorView::HistoryNotRetained(wanted)
                }
            },
        },
{
    let verdict = codec.validate_generation(parent);
    if let Err(e) = verdict {
        return Err(e);
    }
    assert(generation_accepted(*codec, *parent));
    if !(parent.table_id == generation.table_id) || parent.table_version
        > generation.table_version || (parent.table_version == generation.table_version && (
    !same_reference(&parent.semantic_commit, &generation.semantic_commit) || !(
    parent.semantic_state_sha256 == generation.semantic_state_sha256))) {
        return Err(corrupt("invalid retained metadata ancestry"));
    }
    if parent.table_version < wanted {
        return Err(RuntimeError::HistoryNotRetained(wanted));
    }
    Ok(parent.table_version != generation.table_version)
}

/// The commit before a commit.
pub fn semantic_parent(commit: &SemanticCommit) -> (r: Result<ObjectReference, RuntimeError>)
    ensures
        match r {
            Ok(reference) => commit.parent_commit == Some(reference),
            Err(e) => commit.parent_commit is None && e@ == ErrorView::Corrupt(
                "missing semantic parent link"@,
            ),
        },
{
    match &commit.parent_commit {
        None => Err(corrupt("missing semantic parent link")),
        Some(reference) => Ok(reference.clone()),
    }
}

/// Whether a commit is the one before another.
pub open spec fn precedes(
    ancestor: SemanticCommit,
    commit: SemanticCommit,
    table_id: Id,
) -> bool {
    &&& ancestor.table_id == table_id
    &&& ancestor.table_version + 1 == commit.table_version
    &&& commit.previous_semantic_state_sha256 == Some(ancestor.semantic_state_sha256)
}

/// Checks the commit before a commit, on the way to a parent generation. The
/// way ends at the commit that the parent names.
pub fn take_ancestor<C: DocumentCodec>(
    codec: &C,
    parent: &Generation,
    commit: &SemanticCommit,
    reference: &ObjectReference,
    ancestor: &SemanticCommit,
) -> (r: Result<bool, RuntimeError>)
    ensures
        ({
            let linked = precedes(*ancestor, *commit, parent.table_id);
            let at_parent = ancestor.table_version == parent.table_version;
            match r {
                Ok(arrived) => {
                    &&& commit_checked(*codec, *ancestor)
                    &&& linked
                    &&& arrived == at_parent
                    &&& arrived ==> {
                        &&& reference@ == parent.semantic_commit@
                        &&& ancestor.semantic_state_sha256 == parent.semantic_state_sha256
                    }
                },
                Err(e) => {
                    ||| !linked && e@ == ErrorView::Corrupt(
                        "physical and semantic ancestry disagree"@,
                    )
                    ||| {
                        &&& linked
                        &&& at_parent
                        &&& reference@ != parent.semantic_commit@
                        &&& e@ == ErrorView::Corrupt(
                            "physical parent selects a different semantic commit"@,
                        )
                    }
                    ||| linked && (at_parent ==> reference@ == parent.semantic_commit@)
                        && commit_error(
                        *codec,
                        *ancestor,
                        !at_parent || ancestor.semantic_state_sha256
                            == parent.semantic_state_sha256,
                        e,
                    )
                },
            }
        }),
{
    let follows: bool = match commit.previous_semantic_state_sha256 {
        None => false,
        Some(state) => state == ancestor.semantic_state_sha256,
    };
    if !(ancestor.table_id == parent.table_id) || commit.table_version == 0
        || ancestor.table_version != commit.table_version - 1 || !follows {
        return Err(corrupt("physical and semantic ancestry disagree"));
    }
    if ancestor.table_version == parent.table_version {
        if !same_reference(reference, &parent.semantic_commit) {
            return Err(corrupt("physical parent selects a different semantic commit"));
        }
        return match validate_commit(
            codec,
            ancestor,
            parent.table_id,
            parent.table_version,
            parent.semantic_state_sha256,
        ) {
            Err(e) => Err(e),
            Ok(_) => Ok(true),
        };
    }
    match validate_commit(
        codec,
        ancestor,
        parent.table_id,
        ancestor.table_version,
        ancestor.semantic_state_sha256,
    ) {
        Err(e) => Err(e),
        Ok(_) => Ok(false),
    }
}

/// A way from a commit to an older one: each precedes the one before it.
pub open spec fn is_way(commits: Seq<SemanticCommit>, table_id: Id) -> bool {
    forall|i: int|
        0 < i < commits.len() ==> precedes(#[trigger] commits[i], commits[i - 1], table_id)
}

/// A way leaves out no version, and each state on it is the one that the commit
/// after it builds on.
pub proof fn lemma_way_is_complete(commits: Seq<SemanticCommit>, table_id: Id)
    requires
        is_way(commits, table_id),
        commits.len() > 0,
    ensures
        forall|i: int|
            0 <= i < commits.len() ==> (#[trigger] commits[i]).table_version + i
                == commits[0].table_version,
        forall|i: int|
            0 < i < commits.len() ==> commits[i - 1].previous_semantic_state_sha256 == Some(
                (#[trigger] commits[i]).semantic_state_sha256,
            ),
    decreases commits.len(),
{
    if commits.len() > 1 {
        let shorter = commits.drop_last();
        assert forall|i: int| 0 < i < shorter.len() implies precedes(
            #[trigger] shorter[i],
            shorter[i - 1],
            table_id,
        ) by {
            assert(precedes(commits[i], commits[i - 1], table_id));
        }
        lemma_way_is_complete(shorter, table_id);
        let last = commits.len() - 1;
        assert forall|i: int| 0 <= i < commits.len() implies (#[trigger] commits[i]).table_version
            + i == commits[0].table_version by {
            if i < last {
                assert(shorter[i] == commits[i]);
            } else {
                assert(shorter[last - 1] == commits[last - 1]);
                assert(precedes(commits[last], commits[last - 1], table_id));
            }
        }
    }
}

} // verus!

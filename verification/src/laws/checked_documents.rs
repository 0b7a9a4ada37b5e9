//! Which heads, generations, commits and objects are taken for what they are said to
//! be.
use crate::candidate::{
    finish_candidate, Candidate, CandidateImage, MediaTypes, ParentFacts,
};
use crate::checkpoint_index::CheckpointIndexCodec;
use crate::documents::{
    DocumentCodec, Generation, Head, ObjectReference, SemanticCommit,
};
use crate::error::RuntimeError;
use crate::hash::{Id, Sha256};
use crate::pin::{
    check_commit, check_commit_reference, check_generation, check_known_object, check_object,
    check_parent_reference, check_retained_commit, check_state_chain, historical_head,
    metadata_step, object_step, MetadataSelection, ObjectStep, WalkStep,
};
use crate::selection::{
    check_head_length, check_media_type, semantic_parent, take_ancestor, take_commit,
    take_generation, take_parent, validate_commit, wanted_version,
};
use crate::text::texts_view;
use vstd::prelude::*;

verus! {

/// The two lists hold the same texts.
pub open spec fn same_texts(a: Seq<String>, b: Seq<String>) -> bool {
    a.len() == b.len() && forall|i: int| 0 <= i < a.len() ==> (#[trigger] a[i])@ == b[i]@
}

pub proof fn lemma_same_texts(a: Seq<String>, b: Seq<String>)
    ensures
        texts_view(a) == texts_view(b) <==> same_texts(a, b),
{
    let x = texts_view(a);
    let y = texts_view(b);
    assert(x.len() == a.len() && y.len() == b.len());
    if x == y {
        assert forall|i: int| 0 <= i < a.len() implies (#[trigger] a[i])@ == b[i]@ by {
            assert(x[i] == a[i]@ && y[i] == b[i]@);
        }
    }
    if same_texts(a, b) {
        assert(x =~= y);
    }
}

/// The references name the same object.
pub open spec fn same_object(a: ObjectReference, b: ObjectReference) -> bool {
    a@ == b@
}

/// The document of a commit was refused by the codec, or its state could not be
/// confirmed.
pub open spec fn commit_unsound<C: DocumentCodec>(codec: C, commit: SemanticCommit) -> bool {
    ||| exists|e: RuntimeError| #[trigger]
        call_ensures(C::validate_commit, (&codec, &commit), Err::<(), RuntimeError>(e))
    ||| exists|e: RuntimeError| #[trigger] crate::pin::state_given(codec, commit, Err(e))
    ||| exists|state: Sha256|
        state != commit.semantic_state_sha256 && #[trigger] crate::pin::state_given(
            codec,
            commit,
            Ok(state),
        )
    ||| exists|e: RuntimeError| #[trigger]
        call_ensures(
            C::require_supported,
            (&codec, &commit.required_reader_features_after_commit),
            Err::<(), RuntimeError>(e),
        )
    ||| exists|e: RuntimeError| #[trigger]
        call_ensures(
            C::require_supported,
            (&codec, &commit.required_writer_features_after_commit),
            Err::<(), RuntimeError>(e),
        )
}

/// A commit is taken for a head's only where it is of the same table, version, state
/// and features, and its state is confirmed. Where all that agrees, only its own
/// soundness or that of the head can speak against it.
pub proof fn lemma_commit_of_a_head<C: DocumentCodec>(
    codec: C,
    head: Head,
    commit: SemanticCommit,
    r: Result<(), RuntimeError>,
)
    requires
        call_ensures(check_commit::<C>, (&codec, &head, &commit), r),
    ensures
        ({
            let agree = {
                &&& commit.table_id == head.table_id
                &&& commit.table_version == head.table_version
                &&& commit.semantic_state_sha256 == head.semantic_state_sha256
                &&& same_texts(
                    commit.required_reader_features_after_commit@,
                    head.required_reader_features@,
                )
                &&& same_texts(
                    commit.required_writer_features_after_commit@,
                    head.required_writer_features@,
                )
            };
            &&& r is Ok ==> agree && crate::pin::state_given(
                codec,
                commit,
                Ok(commit.semantic_state_sha256),
            )
            &&& agree && r is Err ==> commit_unsound(codec, commit) || exists|e: RuntimeError|
                #[trigger]
                call_ensures(C::validate_head, (&codec, &head), Err::<(), RuntimeError>(e))
        }),
{
    lemma_same_texts(
        commit.required_reader_features_after_commit@,
        head.required_reader_features@,
    );
    lemma_same_texts(
        commit.required_writer_features_after_commit@,
        head.required_writer_features@,
    );
}

/// A generation is taken for a head's only where it is of the same table, version,
/// state and commit; where all that agrees, only its form can speak against it. Both
/// ways to look at it agree.
pub proof fn lemma_generation_of_a_head<C: DocumentCodec>(
    codec: C,
    head: Head,
    generation: Generation,
    r: Result<(), RuntimeError>,
    taken: Result<(), RuntimeError>,
)
    requires
        call_ensures(check_generation::<C>, (&codec, &head, &generation), r),
        call_ensures(take_generation::<C>, (&codec, &head, &generation), taken),
    ensures
        ({
            let agree = {
                &&& generation.table_id == head.table_id
                &&& generation.table_version == head.table_version
                &&& generation.semantic_state_sha256 == head.semantic_state_sha256
                &&& same_object(generation.semantic_commit, head.semantic_commit)
            };
            &&& r is Ok ==> agree
            &&& taken is Ok ==> agree
            &&& agree ==> (r matches Err(e) ==> call_ensures(
                C::validate_generation,
                (&codec, &generation),
                Err::<(), RuntimeError>(e),
            ))
            &&& agree ==> (taken matches Err(e) ==> call_ensures(
                C::validate_generation,
                (&codec, &generation),
                Err::<(), RuntimeError>(e),
            ))
        }),
{
}

/// A commit is taken for the one before another only where it is of the table and of
/// the version before, and its state is confirmed.
pub proof fn lemma_retained_commit<C: DocumentCodec>(
    codec: C,
    commit: SemanticCommit,
    table_id: Id,
    next: Option<u64>,
    r: Result<(), RuntimeError>,
    state: Sha256,
    chained: Result<(), RuntimeError>,
)
    requires
        call_ensures(check_retained_commit::<C>, (&codec, &commit, table_id, next), r),
        call_ensures(check_state_chain, (state, &commit), chained),
    ensures
        r is Ok ==> {
            &&& commit.table_id == table_id
            &&& next matches Some(version) ==> commit.table_version == version - 1
            &&& crate::pin::state_given(codec, commit, Ok(commit.semantic_state_sha256))
        },
        r is Err && commit.table_id == table_id && (next matches Some(version)
            ==> commit.table_version == version - 1) ==> commit_unsound(codec, commit),
        chained is Ok <==> commit.previous_semantic_state_sha256 == Some(state),
{
}

/// A commit is taken for that of a generation only where its table, version and state
/// are the generation's, and its features the head's.
pub proof fn lemma_commit_of_a_generation<C: DocumentCodec>(
    codec: C,
    head: Head,
    generation: Generation,
    commit: SemanticCommit,
    r: Result<(), RuntimeError>,
    plain: Result<(), RuntimeError>,
)
    requires
        call_ensures(take_commit::<C>, (&codec, &head, &generation, &commit), r),
        call_ensures(
            validate_commit::<C>,
            (
                &codec,
                &commit,
                generation.table_id,
                generation.table_version,
                generation.semantic_state_sha256,
            ),
            plain,
        ),
    ensures
        ({
            let agree = {
                &&& commit.table_id == generation.table_id
                &&& commit.table_version == generation.table_version
                &&& commit.semantic_state_sha256 == generation.semantic_state_sha256
            };
            let features = same_texts(
                commit.required_reader_features_after_commit@,
                head.required_reader_features@,
            ) && same_texts(
                commit.required_writer_features_after_commit@,
                head.required_writer_features@,
            );
            &&& plain is Ok ==> agree
            &&& r is Ok ==> agree && features
            &&& agree && plain is Err ==> commit_unsound(codec, commit)
            &&& agree && features && r is Err ==> commit_unsound(codec, commit)
        }),
{
    lemma_same_texts(
        commit.required_reader_features_after_commit@,
        head.required_reader_features@,
    );
    lemma_same_texts(
        commit.required_writer_features_after_commit@,
        head.required_writer_features@,
    );
}

/// The parent of a generation is of the same table and no later; where it is of the
/// same version, it is of the same commit and state. One that is older than what is
/// wanted is not taken.
pub proof fn lemma_parent_of_a_generation<C: DocumentCodec>(
    codec: C,
    generation: Generation,
    parent: Generation,
    wanted: u64,
    r: Result<bool, RuntimeError>,
)
    requires
        call_ensures(take_parent::<C>, (&codec, &generation, &parent, wanted), r),
    ensures
        ({
            let agree = {
                &&& parent.table_id == generation.table_id
                &&& wanted <= parent.table_version <= generation.table_version
                &&& parent.table_version == generation.table_version ==> same_object(
                    parent.semantic_commit,
                    generation.semantic_commit,
                ) && parent.semantic_state_sha256 == generation.semantic_state_sha256
            };
            &&& r is Ok ==> agree
            &&& r matches Ok(older) ==> older == (parent.table_version < generation.table_version)
            &&& agree ==> (r matches Err(e) ==> call_ensures(
                C::validate_generation,
                (&codec, &parent),
                Err::<(), RuntimeError>(e),
            ))
        }),
{
}

/// On the way back from a commit each step is to the version before it, whose state
/// it builds on; the way is over at the version of the parent, at its commit.
pub proof fn lemma_way_back<C: DocumentCodec>(
    codec: C,
    parent: Generation,
    commit: SemanticCommit,
    reference: ObjectReference,
    ancestor: SemanticCommit,
    r: Result<bool, RuntimeError>,
    link: Result<ObjectReference, RuntimeError>,
)
    requires
        call_ensures(take_ancestor::<C>, (&codec, &parent, &commit, &reference, &ancestor), r),
        call_ensures(semantic_parent, (&commit,), link),
    ensures
        link is Ok <==> commit.parent_commit is Some,
        link matches Ok(found) ==> commit.parent_commit == Some(found),
        r matches Ok(arrived) ==> {
            &&& ancestor.table_id == parent.table_id
            &&& ancestor.table_version == commit.table_version - 1
            &&& commit.previous_semantic_state_sha256 == Some(ancestor.semantic_state_sha256)
            &&& arrived <==> ancestor.table_version == parent.table_version
            &&& arrived ==> same_object(reference, parent.semantic_commit)
                && ancestor.semantic_state_sha256 == parent.semantic_state_sha256
        },
{
}

/// A version is there exactly up to the head's, which is the one that is meant where
/// none is named.
pub proof fn lemma_wanted_version(
    selection: MetadataSelection,
    anchor: u64,
    r: Result<u64, RuntimeError>,
)
    requires
        call_ensures(wanted_version, (selection, anchor), r),
    ensures
        selection is Current ==> r == Ok::<u64, RuntimeError>(anchor),
        selection matches MetadataSelection::TableVersion(version) ==> {
            &&& r is Ok <==> version <= anchor
            &&& r matches Ok(wanted) ==> wanted == version
        },
{
}

/// A walk back through the generations arrives exactly at the wanted version, and goes
/// on exactly from a later one that has a parent.
pub proof fn lemma_walk_back(
    wanted: u64,
    anchor: u64,
    version: u64,
    parent: Option<ObjectReference>,
    r: Result<WalkStep, RuntimeError>,
)
    requires
        call_ensures(
            metadata_step,
            (MetadataSelection::TableVersion(wanted), anchor, version, &parent),
            r,
        ),
    ensures
        (r matches Ok(step) && step is Arrived) <==> wanted <= anchor && version == wanted,
        (r matches Ok(step) && step is Load) <==> wanted <= anchor && version > wanted && parent
            is Some,
        r matches Ok(WalkStep::Load(reference)) ==> parent == Some(reference),
{
}

/// An object is the one that a reference names exactly if it has its digest, and its
/// length where one is given; and what is known of it is not read again.
pub proof fn lemma_object_of_a_reference(
    reference: ObjectReference,
    bytes: Vec<u8>,
    r: Result<(), RuntimeError>,
    sha256: Sha256,
    length: u64,
    known: Result<(), RuntimeError>,
    step: Result<ObjectStep, RuntimeError>,
)
    requires
        call_ensures(check_object, (&reference, &bytes), r),
        call_ensures(check_known_object, (&reference, sha256, length), known),
        call_ensures(object_step, (&reference, Some((sha256, length))), step),
    ensures
        r is Ok <==> reference.sha256@ == crate::hash::sha256_of(bytes@) && (reference.length
            matches Some(n) ==> n == bytes@.len()),
        known is Ok <==> reference.sha256 == sha256 && (reference.length matches Some(n) ==> n
            == length),
        step is Ok <==> known is Ok,
        step matches Ok(s) ==> s is Known,
{
}

/// References to parents and commits give a length and the right media type.
pub proof fn lemma_references(
    reference: ObjectReference,
    media_type: String,
    parent: Result<(), RuntimeError>,
    commit: Result<(), RuntimeError>,
    media: Result<(), RuntimeError>,
)
    requires
        call_ensures(check_parent_reference, (&reference, &media_type), parent),
        call_ensures(check_commit_reference, (&reference, &media_type), commit),
        call_ensures(check_media_type, (&reference, &media_type), media),
    ensures
        media is Ok <==> reference@.media_type == Some(media_type@),
        parent is Ok <==> media is Ok && reference.length is Some,
        commit is Ok <==> media is Ok && reference.length is Some,
{
}

/// The head of an earlier generation is that of the later one, at the generation's
/// version, state and commit, with the features that the commit left.
pub proof fn lemma_earlier_head(
    child: Head,
    reference: ObjectReference,
    generation: Generation,
    commit: SemanticCommit,
    head: Head,
)
    requires
        call_ensures(historical_head, (&child, &reference, &generation, &commit), head),
    ensures
        head.table_id == child.table_id,
        head.root_revision == child.root_revision,
        head.table_version == generation.table_version,
        head.semantic_state_sha256 == generation.semantic_state_sha256,
        head.semantic_commit == generation.semantic_commit,
        head.metadata_generation == reference,
        head.required_reader_features@ == commit.required_reader_features_after_commit@,
        head.required_writer_features@ == commit.required_writer_features_after_commit@,
{
}

/// What a writer publishes, a reader takes: the head, the generation and the commit of
/// a candidate agree, and the head is the next one of the table.
pub proof fn lemma_published_documents_agree<C: DocumentCodec + CheckpointIndexCodec>(
    codec: C,
    parent: ParentFacts,
    commit: SemanticCommit,
    commit_uri: String,
    commit_bytes: Vec<u8>,
    media: MediaTypes,
    image: CandidateImage,
    page_count: u64,
    generation_id: Id,
    candidate: Candidate,
)
    requires
        call_ensures(
            finish_candidate::<C>,
            (
                &codec,
                &parent,
                &commit,
                commit_uri,
                commit_bytes,
                &media,
                image,
                page_count,
                generation_id,
            ),
            Ok::<Candidate, RuntimeError>(candidate),
        ),
    ensures
        candidate.head.table_id == parent.head.table_id,
        candidate.head.table_version == commit.table_version,
        candidate.head.semantic_state_sha256 == commit.semantic_state_sha256,
        candidate.head.root_revision == parent.head.root_revision + 1,
        candidate.generation.table_id == candidate.head.table_id,
        candidate.generation.table_version == candidate.head.table_version,
        candidate.generation.semantic_state_sha256 == candidate.head.semantic_state_sha256,
        same_object(candidate.generation.semantic_commit, candidate.head.semantic_commit),
        candidate.generation.generation_id == generation_id,
        candidate.generation.physical_parent == Some(parent.head.metadata_generation),
        candidate.head.semantic_commit.uri@ == commit_uri@,
        candidate.head.semantic_commit.sha256@ == crate::hash::sha256_of(commit_bytes@),
        candidate.head.semantic_commit.length == Some(commit_bytes@.len() as u64),
        candidate.head.metadata_generation.sha256@ == crate::hash::sha256_of(
            candidate.generation_bytes@,
        ),
        same_texts(candidate.head.required_reader_features@, parent.head.required_reader_features@),
        same_texts(candidate.head.required_writer_features@, parent.head.required_writer_features@),
{
}

/// A head has a byte at least and a mebibyte at most.
pub proof fn lemma_head_length(length: u64, r: Result<(), RuntimeError>)
    requires
        call_ensures(check_head_length, (length,), r),
    ensures
        r is Ok <==> 1 <= length <= 0x10_0000,
{
}

} // verus!

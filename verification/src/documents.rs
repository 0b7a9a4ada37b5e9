//! The documents that describe a table: commits, generations and heads.
use crate::checkpoint_index::CheckpointPageIndex;
use crate::error::{corrupt, ErrorView, RuntimeError};
use crate::hash::{Id, Sha256};
use crate::page_map::PageMapRoot;
use crate::text::{reads, texts_view};
use crate::value::{
    copy_value, lemma_members_view, members_view, value_view, CanonicalValue, Member, ValueView,
};
use vstd::prelude::*;

verus! {

/// An immutable object by address, digest, length and media type.
#[derive(Debug)]
pub struct ObjectReference {
    pub uri: String,
    pub sha256: Sha256,
    pub length: Option<u64>,
    pub media_type: Option<String>,
}

impl Clone for ObjectReference {
    fn clone(&self) -> (copy: Self)
        ensures
            copy == *self,
    {
        ObjectReference {
            uri: self.uri.clone(),
            sha256: self.sha256,
            length: self.length,
            media_type: match &self.media_type {
                Some(text) => Some(text.clone()),
                None => None,
            },
        }
    }
}

pub open spec fn reference_is(
    reference: ObjectReference,
    uri: Seq<char>,
    sha256: Sha256,
    length: int,
    media_type: Seq<char>,
) -> bool {
    &&& reference.uri@ == uri
    &&& reference.sha256 == sha256
    &&& reference.length == Some(length as u64)
    &&& reference.media_type matches Some(text) && text@ == media_type
}

/// A reference to an object with all its parts.
pub fn object_reference(uri: &String, sha256: Sha256, length: u64, media_type: &str) -> (reference:
    ObjectReference)
    ensures
        reference_is(reference, uri@, sha256, length as int, media_type@),
{
    ObjectReference {
        uri: uri.clone(),
        sha256,
        length: Some(length),
        media_type: Some(media_type.to_owned()),
    }
}

#[derive(Debug)]
pub struct Checkpoint {
    pub table_version: u64,
    pub uri: String,
    pub sha256: Sha256,
    pub length: u64,
}

impl Clone for Checkpoint {
    fn clone(&self) -> (copy: Self)
        ensures
            copy == *self,
    {
        Checkpoint {
            table_version: self.table_version,
            uri: self.uri.clone(),
            sha256: self.sha256,
            length: self.length,
        }
    }
}

/// Where the pages of a generation's image are.
#[derive(Debug)]
pub struct MetadataImage {
    pub codec: String,
    pub page_size: u32,
    pub page_count: u64,
    pub checkpoint: Checkpoint,
    pub page_map: Option<PageMapRoot>,
    pub checkpoint_page_index: Option<CheckpointPageIndex>,
    pub image_root_sha256: Sha256,
}

#[derive(Debug)]
pub struct Generation {
    pub kind: String,
    pub format_version: u32,
    pub table_id: Id,
    pub table_version: u64,
    pub generation_id: Id,
    pub created_at_ms: i64,
    pub semantic_state_sha256: Sha256,
    pub semantic_commit: ObjectReference,
    pub physical_parent: Option<ObjectReference>,
    pub metadata_image: MetadataImage,
}

#[derive(Debug)]
pub struct Head {
    pub protocol: String,
    pub protocol_version: String,
    pub table_id: Id,
    pub table_version: u64,
    pub root_revision: u64,
    pub semantic_state_sha256: Sha256,
    pub semantic_commit: ObjectReference,
    pub metadata_generation: ObjectReference,
    pub required_reader_features: Vec<String>,
    pub required_writer_features: Vec<String>,
}

/// One request of a commit, and its result.
#[derive(Debug)]
pub struct IntentRecord {
    pub key: String,
    pub intent_sha256: Sha256,
    pub operation_ids: Vec<String>,
    pub result: CanonicalValue,
}

#[derive(Debug)]
pub struct SemanticCommit {
    pub kind: String,
    pub format_version: u32,
    pub table_id: Id,
    pub table_version: u64,
    pub parent_table_version: Option<u64>,
    pub commit_id: Id,
    pub parent_commit: Option<ObjectReference>,
    pub created_at_ms: i64,
    pub intents: Vec<IntentRecord>,
    pub requirements: Vec<CanonicalValue>,
    pub operations: Vec<CanonicalValue>,
    pub required_reader_features_after_commit: Vec<String>,
    pub required_writer_features_after_commit: Vec<String>,
    pub previous_semantic_state_sha256: Option<Sha256>,
    pub semantic_state_sha256: Sha256,
    pub metadata: CanonicalValue,
}

/// The byte formats of the documents, and the digests that the protocol defines
/// over them.
pub trait DocumentCodec {
    /// Whether a head has a form that the format allows, with features that the
    /// runtime supports.
    fn validate_head(&self, head: &Head) -> Result<(), RuntimeError>;

    fn validate_generation(&self, generation: &Generation) -> Result<(), RuntimeError>;

    /// Whether an index has a form that the format allows for the checkpoint.
    fn validate_index(
        &self,
        index: &CheckpointPageIndex,
        checkpoint: &Checkpoint,
        page_size: u32,
    ) -> Result<(), RuntimeError>;

    /// Whether the runtime supports each of the features.
    fn require_supported(&self, features: &Vec<String>) -> Result<(), RuntimeError>;

    /// Whether a commit has a form that the format allows.
    fn validate_commit(&self, commit: &SemanticCommit) -> Result<(), RuntimeError>;

    fn encode_commit(&self, commit: &SemanticCommit) -> Result<Vec<u8>, RuntimeError>;

    fn encode_generation(&self, generation: &Generation) -> Result<Vec<u8>, RuntimeError>;

    fn encode_head(&self, head: &Head) -> Result<Vec<u8>, RuntimeError>;

    /// The state after a commit on a table in the given state. What the commit
    /// itself says of its state does not count.
    fn next_state(&self, previous: Sha256, commit: &SemanticCommit) -> Result<Sha256, RuntimeError>;

    /// The state after the first commit of a table.
    fn genesis_state(&self, commit: &SemanticCommit) -> Result<Sha256, RuntimeError>;

    /// The digest that stands for an image as a whole.
    fn image_root(
        &self,
        table_id: Id,
        table_version: u64,
        page_size: u32,
        page_count: u64,
        checkpoint: Sha256,
        page_map: Option<Sha256>,
    ) -> Sha256;
}

/// Whether a codec accepts a generation.
pub open spec fn generation_accepted<C: DocumentCodec>(codec: C, generation: Generation) -> bool {
    exists|verdict: Result<(), RuntimeError>|
        verdict is Ok && #[trigger] call_ensures(
            C::validate_generation,
            (&codec, &generation),
            verdict,
        )
}

/// Whether a codec accepts a commit.
pub open spec fn commit_accepted<C: DocumentCodec>(codec: C, commit: SemanticCommit) -> bool {
    exists|verdict: Result<(), RuntimeError>|
        verdict is Ok && #[trigger] call_ensures(C::validate_commit, (&codec, &commit), verdict)
}

/// Whether a codec accepts a head.
pub open spec fn head_accepted<C: DocumentCodec>(codec: C, head: Head) -> bool {
    exists|verdict: Result<(), RuntimeError>|
        verdict is Ok && #[trigger] call_ensures(C::validate_head, (&codec, &head), verdict)
}

/// Whether a codec supports features.
pub open spec fn supports<C: DocumentCodec>(codec: C, features: Vec<String>) -> bool {
    exists|verdict: Result<(), RuntimeError>|
        verdict is Ok && #[trigger] call_ensures(C::require_supported, (&codec, &features), verdict)
}

/// An object reference by its parts.
pub struct ReferenceView {
    pub uri: Seq<char>,
    pub sha256: Sha256,
    pub length: Option<u64>,
    pub media_type: Option<Seq<char>>,
}

impl View for ObjectReference {
    type V = ReferenceView;

    open spec fn view(&self) -> ReferenceView {
        ReferenceView {
            uri: self.uri@,
            sha256: self.sha256,
            length: self.length,
            media_type: match self.media_type {
                None => None,
                Some(text) => Some(text@),
            },
        }
    }
}

/// Whether two references agree in all their parts.
pub fn same_reference(a: &ObjectReference, b: &ObjectReference) -> (same: bool)
    ensures
        same == (a@ == b@),
{
    let media: bool = match (&a.media_type, &b.media_type) {
        (None, None) => true,
        (Some(x), Some(y)) => *x == *y,
        _ => false,
    };
    a.uri == b.uri && a.sha256 == b.sha256 && a.length == b.length && media
}

/// Whether two lists of texts are the same.
pub fn same_texts(a: &Vec<String>, b: &Vec<String>) -> (same: bool)
    ensures
        same == (texts_view(a@) == texts_view(b@)),
{
    if a.len() != b.len() {
        assert(texts_view(a@).len() != texts_view(b@).len());
        return false;
    }
    let mut i: usize = 0;
    while i < a.len()
        invariant
            i <= a@.len(),
            a@.len() == b@.len(),
            forall|k: int| 0 <= k < i ==> (#[trigger] a@[k])@ == b@[k]@,
        decreases a@.len() - i,
    {
        if !(a[i] == b[i]) {
            assert(texts_view(a@)[i as int] != texts_view(b@)[i as int]);
            return false;
        }
        i = i + 1;
    }
    assert(texts_view(a@) =~= texts_view(b@));
    true
}

pub fn copy_texts(texts: &Vec<String>) -> (copy: Vec<String>)
    ensures
        copy@ == texts@,
{
    let mut copy: Vec<String> = Vec::new();
    let mut i: usize = 0;
    while i < texts.len()
        invariant
            i <= texts@.len(),
            copy@ == texts@.take(i as int),
        decreases texts@.len() - i,
    {
        copy.push(texts[i].clone());
        i = i + 1;
        assert(copy@ =~= texts@.take(i as int));
    }
    assert(copy@ =~= texts@);
    copy
}

/// The members of an object but the ones under a key.
pub open spec fn without(members: Seq<(Seq<char>, ValueView)>, key: Seq<char>) -> Seq<
    (Seq<char>, ValueView),
>
    decreases members.len(),
{
    if members.len() == 0 {
        members
    } else if members.last().0 == key {
        without(members.drop_last(), key)
    } else {
        without(members.drop_last(), key).push(members.last())
    }
}

/// The document of a commit as its state is computed over it: all but the state
/// that it claims itself.
pub fn commit_body(document: &CanonicalValue) -> (r: Result<CanonicalValue, RuntimeError>)
    ensures
        match r {
            Ok(body) => document@ matches ValueView::Object(members) && body@ == ValueView::Object(
                without(members, "semantic_state_sha256"@),
            ),
            Err(e) => !(document@ is Object) && e@ == ErrorView::Corrupt(
                "commit did not encode as an object"@,
            ),
        },
{
    let members = match document {
        CanonicalValue::Object(members) => members,
        _ => {
            return Err(corrupt("commit did not encode as an object"));
        },
    };
    let ghost all = members_view(members@);
    proof {
        lemma_members_view(members@);
        assert(all.take(0) =~= Seq::<(Seq<char>, ValueView)>::empty());
    }
    let mut body: Vec<Member> = Vec::new();
    assert(members_view(body@) =~= Seq::<(Seq<char>, ValueView)>::empty());
    let mut i: usize = 0;
    while i < members.len()
        invariant
            i <= members@.len(),
            all == members_view(members@),
            all.len() == members@.len(),
            forall|k: int|
                0 <= k < members@.len() ==> #[trigger] all[k] == (
                    members@[k].key@,
                    value_view(&members@[k].value),
                ),
            members_view(body@) == without(all.take(i as int), "semantic_state_sha256"@),
        decreases members@.len() - i,
    {
        proof {
            assert(all.take(i + 1).drop_last() =~= all.take(i as int));
            assert(all.take(i + 1).last() == all[i as int]);
        }
        let member = &members[i];
        if !reads(&member.key, "semantic_state_sha256") {
            let ghost before = body@;
            body.push(Member { key: member.key.clone(), value: copy_value(&member.value) });
            assert(body@.drop_last() =~= before);
        }
        i = i + 1;
    }
    assert(all.take(i as int) =~= all);
    Ok(CanonicalValue::Object(body))
}

} // verus!

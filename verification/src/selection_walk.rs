//! The walk from a head to the generation of a version: which document is read
//! after which, and what is refused on the way.
use crate::candidate::MediaTypes;
use crate::documents::{
    generation_accepted, head_accepted, supports, DocumentCodec, Generation, Head,
    ObjectReference, SemanticCommit,
};
use crate::error::{ErrorView, RuntimeError};
use crate::hash::Id;
use crate::pin::{generation_agrees, MetadataSelection};
use crate::selection::{
    check_media_type, commit_checked, commit_error, commit_matches, generation_refused, next_generation,
    parent_fits, precedes, semantic_parent, take_ancestor, take_commit, take_generation,
    take_parent, wanted_version, ParentStep,
};
use crate::text::texts_view;
use vstd::prelude::*;

verus! {

/// A generation, and the commit that made its state.
#[derive(Debug)]
pub struct Reached {
    pub generation: Generation,
    pub commit: SemanticCommit,
}

/// Where a walk stands, and what it has asked for.
#[derive(Debug)]
pub enum SelectionWalk {
    /// At the head: its generation was asked for.
    AtHead { head: Head, wanted: u64 },
    /// At the head's generation: its commit was asked for.
    AtGeneration { head: Head, wanted: u64, generation: Generation },
    /// Behind the wanted version: the generation before was asked for.
    Back { wanted: u64, at: Reached, seen: Vec<Id> },
    /// Between two generations: the commit before was asked for, on the way to the
    /// one that the older generation names.
    Between {
        wanted: u64,
        commit: SemanticCommit,
        reference: ObjectReference,
        parent: Generation,
        seen: Vec<Id>,
    },
    Arrived { wanted: u64, at: Reached },
}

/// What a walk asks for.
#[derive(Debug)]
pub enum WalkRead {
    Generation(ObjectReference),
    Commit(ObjectReference),
    /// Nothing: the walk has arrived.
    Nothing,
}

pub open spec fn corrupt_as(message: Seq<char>) -> ErrorView {
    ErrorView::Corrupt(message)
}

/// A reference names the media type that is expected of it.
pub open spec fn media_check(reference: ObjectReference, media_type: Seq<char>) -> Result<
    (),
    ErrorView,
> {
    if reference@.media_type == Some(media_type) {
        Ok(())
    } else {
        Err(corrupt_as("incorrect metadata object media type"@))
    }
}

/// The version that a selection asks for, under a head at this version.
pub open spec fn selected(selection: MetadataSelection, anchor: u64) -> Result<u64, ErrorView> {
    match selection {
        MetadataSelection::Current => Ok(anchor),
        MetadataSelection::TableVersion(v) => if v <= anchor {
            Ok(v)
        } else {
            Err(ErrorView::MetadataVersionNotFound(v))
        },
    }
}

/// Whether a walk can go on from a generation.
pub open spec fn settle_check(
    generation: Generation,
    wanted: u64,
    seen: Seq<Id>,
    media: MediaTypes,
) -> Result<(), ErrorView> {
    if seen.contains(generation.generation_id) {
        Err(corrupt_as("retained metadata generation cycle"@))
    } else if generation.table_version == wanted {
        Ok(())
    } else {
        match generation.physical_parent {
            None => Err(ErrorView::HistoryNotRetained(wanted)),
            Some(reference) => if reference.length is None {
                Err(corrupt_as("physical parent has no declared length"@))
            } else {
                media_check(reference, media.generation@)
            },
        }
    }
}

/// How a walk goes on from a generation: it has arrived there, or asks for the
/// generation before.
pub open spec fn settled(
    at: Reached,
    wanted: u64,
    seen: Seq<Id>,
    walk: SelectionWalk,
    read: WalkRead,
) -> bool {
    if at.generation.table_version == wanted {
        walk == (SelectionWalk::Arrived { wanted, at }) && read is Nothing
    } else {
        &&& walk matches SelectionWalk::Back { wanted: w, at: a, seen: s } && w == wanted && a == at
            && s@ == seen.push(at.generation.generation_id)
        &&& at.generation.physical_parent matches Some(reference) && read == WalkRead::Generation(
            reference,
        )
    }
}

fn settle(at: Reached, wanted: u64, seen: Vec<Id>, media: &MediaTypes) -> (r: Result<
    (SelectionWalk, WalkRead),
    RuntimeError,
>)
    ensures
        match r {
            Ok((walk, read)) => {
                &&& settle_check(at.generation, wanted, seen@, *media) is Ok
                &&& settled(at, wanted, seen@, walk, read)
                &&& walk matches SelectionWalk::Back { seen: s, .. } ==> s@.contains(
                    at.generation.generation_id,
                )
            },
            Err(e) => settle_check(at.generation, wanted, seen@, *media) == Err::<(), ErrorView>(
                e@,
            ),
        },
{
    let mut seen = seen;
    proof {
        let met = seen@.push(at.generation.generation_id);
        assert(met[met.len() - 1] == at.generation.generation_id);
    }
    match next_generation(&at.generation, wanted, &mut seen) {
        Err(e) => Err(e),
        Ok(ParentStep::Arrived) => Ok((SelectionWalk::Arrived { wanted, at }, WalkRead::Nothing)),
        Ok(ParentStep::Read(reference)) => {
            match check_media_type(&reference, &media.generation) {
                Err(e) => Err(e),
                Ok(()) => Ok(
                    (SelectionWalk::Back { wanted, at, seen }, WalkRead::Generation(reference)),
                ),
            }
        },
    }
}

/// Whether the commit before a commit can be asked for.
pub open spec fn link_check(commit: SemanticCommit, media: MediaTypes) -> Result<(), ErrorView> {
    match commit.parent_commit {
        None => Err(corrupt_as("missing semantic parent link"@)),
        Some(reference) => media_check(reference, media.commit@),
    }
}

/// A walk that asks for the commit before a commit.
pub open spec fn linked(
    wanted: u64,
    commit: SemanticCommit,
    parent: Generation,
    seen: Seq<Id>,
    walk: SelectionWalk,
    read: WalkRead,
) -> bool {
    &&& walk matches SelectionWalk::Between { wanted: w, commit: c, reference: r, parent: p, seen: s }
        && w == wanted && c == commit && commit.parent_commit == Some(r) && p == parent && s@ == seen
        && read == WalkRead::Commit(r)
}

fn link(
    wanted: u64,
    commit: SemanticCommit,
    parent: Generation,
    seen: Vec<Id>,
    media: &MediaTypes,
) -> (r: Result<(SelectionWalk, WalkRead), RuntimeError>)
    ensures
        match r {
            Ok((walk, read)) => {
                &&& link_check(commit, *media) is Ok
                &&& linked(wanted, commit, parent, seen@, walk, read)
            },
            Err(e) => link_check(commit, *media) == Err::<(), ErrorView>(e@),
        },
{
    let reference = match semantic_parent(&commit) {
        Err(e) => {
            return Err(e);
        },
        Ok(reference) => reference,
    };
    match check_media_type(&reference, &media.commit) {
        Err(e) => Err(e),
        Ok(()) => {
            let asked = reference.clone();
            Ok(
                (
                    SelectionWalk::Between { wanted, commit, reference, parent, seen },
                    WalkRead::Commit(asked),
                ),
            )
        },
    }
}

/// A generation and its commit, both checked.
pub open spec fn reached_ok<C: DocumentCodec>(codec: C, at: Reached) -> bool {
    &&& generation_accepted(codec, at.generation)
    &&& commit_checked(codec, at.commit)
    &&& commit_matches(
        at.commit,
        at.generation.table_id,
        at.generation.table_version,
        at.generation.semantic_state_sha256,
    )
}

impl SelectionWalk {
    pub open spec fn target(self) -> u64 {
        match self {
            SelectionWalk::AtHead { wanted, .. } => wanted,
            SelectionWalk::AtGeneration { wanted, .. } => wanted,
            SelectionWalk::Back { wanted, .. } => wanted,
            SelectionWalk::Between { wanted, .. } => wanted,
            SelectionWalk::Arrived { wanted, .. } => wanted,
        }
    }

    /// The table that the walk stays in.
    pub open spec fn table(self) -> Id {
        match self {
            SelectionWalk::AtHead { head, .. } => head.table_id,
            SelectionWalk::AtGeneration { head, .. } => head.table_id,
            SelectionWalk::Back { at, .. } => at.generation.table_id,
            SelectionWalk::Between { parent, .. } => parent.table_id,
            SelectionWalk::Arrived { at, .. } => at.generation.table_id,
        }
    }

    /// What a walk has made sure of: where it stands, the commit is the one that
    /// made the state of the generation, it has not passed the wanted version, and
    /// it has arrived only there.
    pub open spec fn wf<C: DocumentCodec>(self, codec: C) -> bool {
        match self {
            SelectionWalk::AtHead { head, wanted } => wanted <= head.table_version,
            SelectionWalk::AtGeneration { head, wanted, generation } => {
                &&& wanted <= head.table_version
                &&& generation_accepted(codec, generation)
                &&& generation_agrees(head, generation)
            },
            SelectionWalk::Back { wanted, at, seen } => {
                &&& reached_ok(codec, at)
                &&& wanted < at.generation.table_version
                &&& seen@.contains(at.generation.generation_id)
            },
            SelectionWalk::Between { wanted, commit, parent, .. } => {
                &&& generation_accepted(codec, parent)
                &&& commit.table_id == parent.table_id
                &&& wanted <= parent.table_version < commit.table_version
            },
            SelectionWalk::Arrived { wanted, at } => {
                &&& reached_ok(codec, at)
                &&& at.generation.table_version == wanted
            },
        }
    }

    /// Begins a walk at a head. The head is checked, the version that is asked for
    /// is looked up under it, and its generation is asked for.
    pub fn begin<C: DocumentCodec>(
        codec: &C,
        head: Head,
        selection: MetadataSelection,
        media: &MediaTypes,
    ) -> (r: Result<(Self, WalkRead), RuntimeError>)
        ensures
            match r {
                Ok((walk, read)) => {
                    &&& head_accepted(*codec, head)
                    &&& supports(*codec, head.required_writer_features)
                    &&& walk matches SelectionWalk::AtHead { head: h, wanted } && h == head
                        && selected(selection, head.table_version) == Ok::<u64, ErrorView>(wanted)
                    &&& media_check(head.metadata_generation, media.generation@) is Ok
                    &&& read == WalkRead::Generation(head.metadata_generation)
                    &&& walk.wf(*codec)
                },
                Err(e) => {
                    ||| call_ensures(C::validate_head, (codec, &head), Err::<(), RuntimeError>(e))
                    ||| {
                        &&& head_accepted(*codec, head)
                        &&& call_ensures(
                            C::require_supported,
                            (codec, &head.required_writer_features),
                            Err::<(), RuntimeError>(e),
                        )
                    }
                    ||| {
                        &&& head_accepted(*codec, head)
                        &&& supports(*codec, head.required_writer_features)
                        &&& match selected(selection, head.table_version) {
                            Err(refusal) => e@ == refusal,
                            Ok(_) => media_check(head.metadata_generation, media.generation@)
                                == Err::<(), ErrorView>(e@),
                        }
                    }
                },
            },
    {
        let verdict = codec.validate_head(&head);
        if let Err(e) = verdict {
            return Err(e);
        }
        assert(head_accepted(*codec, head));
        let verdict = codec.require_supported(&head.required_writer_features);
        if let Err(e) = verdict {
            return Err(e);
        }
        assert(supports(*codec, head.required_writer_features));
        let wanted: u64 = match wanted_version(selection, head.table_version) {
            Err(e) => {
                return Err(e);
            },
            Ok(wanted) => wanted,
        };
        match check_media_type(&head.metadata_generation, &media.generation) {
            Err(e) => Err(e),
            Ok(()) => {
                let read = WalkRead::Generation(head.metadata_generation.clone());
                Ok((SelectionWalk::AtHead { head, wanted }, read))
            },
        }
    }

    pub open spec fn asks_generation(self) -> bool {
        self is AtHead || self is Back
    }

    pub open spec fn asks_commit(self) -> bool {
        self is AtGeneration || self is Between
    }

    /// Why a generation is refused.
    pub open spec fn generation_error<C: DocumentCodec>(
        self,
        codec: C,
        media: MediaTypes,
        generation: Generation,
        e: RuntimeError,
    ) -> bool {
        ||| generation_refused(codec, generation, e)
        ||| {
            &&& generation_accepted(codec, generation)
            &&& match self {
                SelectionWalk::AtHead { head, .. } => if !generation_agrees(head, generation) {
                    e@ == corrupt_as("metadata generation does not match HEAD"@)
                } else {
                    media_check(generation.semantic_commit, media.commit@) == Err::<(), ErrorView>(
                        e@,
                    )
                },
                SelectionWalk::Back { wanted, at, seen } => if !parent_fits(
                    at.generation,
                    generation,
                ) {
                    e@ == corrupt_as("invalid retained metadata ancestry"@)
                } else if generation.table_version < wanted {
                    e@ == ErrorView::HistoryNotRetained(wanted)
                } else if generation.table_version < at.generation.table_version {
                    link_check(at.commit, media) == Err::<(), ErrorView>(e@)
                } else {
                    settle_check(generation, wanted, seen@, media) == Err::<(), ErrorView>(e@)
                },
                _ => false,
            }
        }
    }

    /// The step after a generation.
    pub open spec fn after_generation<C: DocumentCodec>(
        self,
        codec: C,
        media: MediaTypes,
        generation: Generation,
        walk: Self,
        read: WalkRead,
    ) -> bool {
        &&& generation_accepted(codec, generation)
        &&& match self {
            SelectionWalk::AtHead { head, wanted } => {
                &&& generation_agrees(head, generation)
                &&& media_check(generation.semantic_commit, media.commit@) is Ok
                &&& walk == (SelectionWalk::AtGeneration { head, wanted, generation })
                &&& read == WalkRead::Commit(generation.semantic_commit)
            },
            SelectionWalk::Back { wanted, at, seen } => {
                &&& parent_fits(at.generation, generation)
                &&& generation.table_version >= wanted
                &&& if generation.table_version < at.generation.table_version {
                    linked(wanted, at.commit, generation, seen@, walk, read)
                } else {
                    &&& settle_check(generation, wanted, seen@, media) is Ok
                    &&& settled(
                        (Reached { generation, commit: at.commit }),
                        wanted,
                        seen@,
                        walk,
                        read,
                    )
                }
            },
            _ => false,
        }
    }

    /// Takes the generation that was asked for.
    pub fn take_generation<C: DocumentCodec>(
        self,
        codec: &C,
        media: &MediaTypes,
        generation: Generation,
    ) -> (r: Result<(Self, WalkRead), RuntimeError>)
        requires
            self.asks_generation(),
            self.wf(*codec),
        ensures
            match r {
                Ok((walk, read)) => {
                    &&& self.after_generation(*codec, *media, generation, walk, read)
                    &&& walk.wf(*codec)
                    &&& walk.target() == self.target()
                    &&& walk.table() == self.table()
                },
                Err(e) => self.generation_error(*codec, *media, generation, e),
            },
    {
        match self {
            SelectionWalk::AtHead { head, wanted } => {
                match take_generation(codec, &head, &generation) {
                    Err(e) => {
                        return Err(e);
                    },
                    Ok(()) => {},
                }
                match check_media_type(&generation.semantic_commit, &media.commit) {
                    Err(e) => Err(e),
                    Ok(()) => {
                        let read = WalkRead::Commit(generation.semantic_commit.clone());
                        Ok((SelectionWalk::AtGeneration { head, wanted, generation }, read))
                    },
                }
            },
            SelectionWalk::Back { wanted, at, seen } => {
                let older: bool = match take_parent(codec, &at.generation, &generation, wanted) {
                    Err(e) => {
                        return Err(e);
                    },
                    Ok(older) => older,
                };
                if older {
                    link(wanted, at.commit, generation, seen, media)
                } else {
                    settle(Reached { generation, commit: at.commit }, wanted, seen, media)
                }
            },
            other => Ok((other, WalkRead::Nothing)),
        }
    }

    /// Why a commit is refused.
    pub open spec fn commit_refusal<C: DocumentCodec>(
        self,
        codec: C,
        media: MediaTypes,
        commit: SemanticCommit,
        e: RuntimeError,
    ) -> bool {
        match self {
            SelectionWalk::AtGeneration { head, wanted, generation } => {
                let matches_so = commit_matches(
                    commit,
                    generation.table_id,
                    generation.table_version,
                    generation.semantic_state_sha256,
                );
                let features = features_agree(head, commit);
                ||| commit_error(codec, commit, matches_so, e)
                ||| commit_checked(codec, commit) && matches_so && !features && e@ == corrupt_as(
                    "HEAD features disagree with semantic commit"@,
                )
                ||| commit_checked(codec, commit) && matches_so && features && settle_check(
                    generation,
                    wanted,
                    Seq::empty(),
                    media,
                ) == Err::<(), ErrorView>(e@)
            },
            SelectionWalk::Between { wanted, commit: child, reference, parent, seen } => {
                let follows = precedes(commit, child, parent.table_id);
                let at_parent = commit.table_version == parent.table_version;
                ||| !follows && e@ == corrupt_as("physical and semantic ancestry disagree"@)
                ||| follows && at_parent && reference@ != parent.semantic_commit@ && e@
                    == corrupt_as("physical parent selects a different semantic commit"@)
                ||| follows && (at_parent ==> reference@ == parent.semantic_commit@)
                    && commit_error(
                    codec,
                    commit,
                    !at_parent || commit.semantic_state_sha256 == parent.semantic_state_sha256,
                    e,
                )
                ||| commit_checked(codec, commit) && follows && !at_parent && link_check(commit, media) == Err::<(), ErrorView>(e@)
                ||| commit_checked(codec, commit) && follows && at_parent && settle_check(parent, wanted, seen@, media) == Err::<
                    (),
                    ErrorView,
                >(e@)
            },
            _ => false,
        }
    }

    /// The step after a commit.
    pub open spec fn after_commit<C: DocumentCodec>(
        self,
        codec: C,
        media: MediaTypes,
        commit: SemanticCommit,
        walk: Self,
        read: WalkRead,
    ) -> bool {
        &&& commit_checked(codec, commit)
        &&& match self {
            SelectionWalk::AtGeneration { head, wanted, generation } => {
                &&& commit_matches(
                    commit,
                    generation.table_id,
                    generation.table_version,
                    generation.semantic_state_sha256,
                )
                &&& features_agree(head, commit)
                &&& settle_check(generation, wanted, Seq::empty(), media) is Ok
                &&& settled((Reached { generation, commit }), wanted, Seq::empty(), walk, read)
            },
            SelectionWalk::Between { wanted, commit: child, reference, parent, seen } => {
                &&& precedes(commit, child, parent.table_id)
                &&& if commit.table_version == parent.table_version {
                    &&& reference@ == parent.semantic_commit@
                    &&& commit.semantic_state_sha256 == parent.semantic_state_sha256
                    &&& settle_check(parent, wanted, seen@, media) is Ok
                    &&& settled(
                        (Reached { generation: parent, commit }),
                        wanted,
                        seen@,
                        walk,
                        read,
                    )
                } else {
                    linked(wanted, commit, parent, seen@, walk, read)
                }
            },
            _ => false,
        }
    }

    /// Takes the commit that was asked for.
    pub fn take_commit<C: DocumentCodec>(
        self,
        codec: &C,
        media: &MediaTypes,
        commit: SemanticCommit,
    ) -> (r: Result<(Self, WalkRead), RuntimeError>)
        requires
            self.asks_commit(),
            self.wf(*codec),
        ensures
            match r {
                Ok((walk, read)) => {
                    &&& self.after_commit(*codec, *media, commit, walk, read)
                    &&& walk.wf(*codec)
                    &&& walk.target() == self.target()
                    &&& walk.table() == self.table()
                },
                Err(e) => self.commit_refusal(*codec, *media, commit, e),
            },
    {
        match self {
            SelectionWalk::AtGeneration { head, wanted, generation } => {
                match take_commit(codec, &head, &generation, &commit) {
                    Err(e) => {
                        return Err(e);
                    },
                    Ok(()) => {},
                }
                let seen: Vec<Id> = Vec::new();
                assert(seen@ =~= Seq::<Id>::empty());
                settle(Reached { generation, commit }, wanted, seen, media)
            },
            SelectionWalk::Between { wanted, commit: child, reference, parent, seen } => {
                let arrived: bool = match take_ancestor(
                    codec,
                    &parent,
                    &child,
                    &reference,
                    &commit,
                ) {
                    Err(e) => {
                        return Err(e);
                    },
                    Ok(arrived) => arrived,
                };
                if arrived {
                    settle(Reached { generation: parent, commit }, wanted, seen, media)
                } else {
                    link(wanted, commit, parent, seen, media)
                }
            },
            other => Ok((other, WalkRead::Nothing)),
        }
    }
}

/// Whether a commit leaves the features that a head requires.
pub open spec fn features_agree(head: Head, commit: SemanticCommit) -> bool {
    &&& texts_view(commit.required_reader_features_after_commit@) == texts_view(
        head.required_reader_features@,
    )
    &&& texts_view(commit.required_writer_features_after_commit@) == texts_view(
        head.required_writer_features@,
    )
}

/// A walk that has arrived stands at the generation of the version that was asked
/// for, in the table of the head, with the commit that made its state.
pub proof fn lemma_arrived_where_asked<C: DocumentCodec>(
    codec: C,
    walk: SelectionWalk,
    wanted: u64,
    at: Reached,
)
    requires
        walk.wf(codec),
        walk == (SelectionWalk::Arrived { wanted, at }),
    ensures
        at.generation.table_version == walk.target(),
        at.generation.table_id == walk.table(),
        at.commit.table_version == walk.target(),
        at.commit.table_id == walk.table(),
        at.commit.semantic_state_sha256 == at.generation.semantic_state_sha256,
{
}

/// A walk never stands at a generation twice: one that it has been at is refused.
pub proof fn lemma_walk_refuses_a_cycle<C: DocumentCodec>(
    codec: C,
    media: MediaTypes,
    walk: SelectionWalk,
    generation: Generation,
    next: SelectionWalk,
    read: WalkRead,
)
    requires
        walk.wf(codec),
        walk.after_generation(codec, media, generation, next, read),
    ensures
        walk matches SelectionWalk::Back { at, seen, .. } ==> generation.table_version
            == at.generation.table_version ==> !seen@.contains(generation.generation_id),
{
}

} // verus!

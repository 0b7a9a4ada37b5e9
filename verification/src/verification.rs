//! The verification of a table: from its head back through the generations that are
//! retained, then over the objects that their snapshots name, with the counts of
//! what was checked.
use crate::catalog::RefRow;
use crate::documents::{Generation, ObjectReference};
use crate::error::{ErrorView, RuntimeError};
use crate::hash::{Id, Sha256};
use crate::history::{
    collect_outcome, collect_snapshot_files, complete, note_id, verification_starts,
    verification_step, visited, HeadAnchor, TextCodec, VerificationReport, VerificationScope,
    VerificationStep,
};
use crate::pin::{
    edge_ok, known_matches, object_step, validate_generation_edge, ObjectStep,
};
use crate::tables::{ChangeRow, FileRecord, SnapshotRecord};
use vstd::prelude::*;

verus! {

/// What a verification waits for.
#[derive(Clone, Copy, Debug, PartialEq, Eq, Structural)]
pub enum VerificationPhase {
    /// The rows of a generation.
    Rows,
    /// The generation before it.
    Parent,
    /// The commits behind the oldest generation.
    Commits,
    /// What is known of the next object.
    Objects,
    /// The bytes of the next object.
    Bytes,
}

/// A verification under way.
#[derive(Debug)]
pub struct Verification {
    pub phase: VerificationPhase,
    pub scope: VerificationScope,
    pub anchor: HeadAnchor,
    /// The generations that were met, the newest first.
    pub generations: Vec<Id>,
    /// The commits that were met, each once.
    pub commits: Vec<Id>,
    /// The snapshots that were met, each once.
    pub snapshots: Vec<Id>,
    /// The content that the snapshots name.
    pub references: Vec<ObjectReference>,
    /// How many of the references were looked at.
    pub looked_at: usize,
    /// How many objects were read, the head among them, and their bytes.
    pub objects: u64,
    pub bytes: u64,
}

/// What follows the rows of a generation.
pub open spec fn step_is(
    scope: VerificationScope,
    parent: Option<ObjectReference>,
    step: VerificationStep,
) -> bool {
    match (scope, parent) {
        (VerificationScope::Current, _) => step is Finish,
        (VerificationScope::RetainedHistory, None) => step is FollowCommits,
        (VerificationScope::RetainedHistory, Some(reference)) => step == VerificationStep::Load(
            reference,
        ),
    }
}

pub open spec fn phase_after(step: VerificationStep) -> VerificationPhase {
    match step {
        VerificationStep::Finish => VerificationPhase::Objects,
        VerificationStep::FollowCommits => VerificationPhase::Commits,
        VerificationStep::Load(_) => VerificationPhase::Parent,
    }
}

/// The list with one more that was met.
pub open spec fn noted(met: Seq<Id>, id: Id) -> Seq<Id> {
    if met.contains(id) {
        met
    } else {
        met.push(id)
    }
}

/// Two states of one verification: of the same scope, under the same head.
pub open spec fn same_frame(a: Verification, b: Verification) -> bool {
    &&& a.scope == b.scope
    &&& a.anchor == b.anchor
}

impl Verification {
    /// Each generation and each commit was met once.
    pub open spec fn wf(&self) -> bool {
        &&& self.generations@.no_duplicates()
        &&& self.generations@.len() > 0
        &&& self.commits@.no_duplicates()
        &&& self.looked_at <= self.references@.len()
        &&& self.phase is Bytes ==> self.looked_at < self.references@.len()
        &&& self.objects > 0
    }

    /// A verification that has read the head, and waits for its generation.
    pub fn start(scope: VerificationScope, anchor: HeadAnchor, head_bytes: u64, generation: Id) -> (
        verification: Self)
        ensures
            verification.wf(),
            verification.phase is Rows,
            verification.scope == scope,
            verification.anchor == anchor,
            verification.generations@ == seq![generation],
            verification.commits@.len() == 0,
            verification.snapshots@.len() == 0,
            verification.references@.len() == 0,
            verification.looked_at == 0,
            verification.objects == 1,
            verification.bytes == head_bytes,
    {
        let mut generations: Vec<Id> = Vec::new();
        generations.push(generation);
        assert(generations@ =~= seq![generation]);
        Verification {
            phase: VerificationPhase::Rows,
            scope,
            anchor,
            generations,
            commits: Vec::new(),
            snapshots: Vec::new(),
            references: Vec::new(),
            looked_at: 0,
            objects: 1,
            bytes: head_bytes,
        }
    }

    /// Takes the rows of a generation: its commit is met, and so is every snapshot
    /// that its rows show and that was not met before, with the content it adds.
    pub fn take_rows<C: TextCodec>(
        &mut self,
        codec: &C,
        generation: &Generation,
        commit: Id,
        refs: &Vec<RefRow>,
        records: &Vec<SnapshotRecord>,
        changes: &Vec<ChangeRow>,
        files: &Vec<FileRecord>,
    ) -> (r: Result<VerificationStep, RuntimeError>)
        requires
            old(self).wf(),
            old(self).phase is Rows,
            old(self).looked_at == 0,
        ensures
            final(self).wf(),
            same_frame(*old(self), *final(self)),
            final(self).generations@ == old(self).generations@,
            final(self).commits@ == noted(old(self).commits@, commit),
            final(self).looked_at == 0,
            final(self).objects == old(self).objects,
            final(self).bytes == old(self).bytes,
            ({
                let starts = verification_starts(old(self).scope, refs@, records@);
                match r {
                    Ok(step) => {
                        &&& visited(
                            records@,
                            changes@,
                            files@,
                            starts,
                            old(self).snapshots@,
                            final(self).snapshots@,
                            old(self).references@,
                            final(self).references@,
                        )
                        &&& complete(
                            records@,
                            starts,
                            old(self).snapshots@,
                            final(self).snapshots@,
                        )
                        &&& collect_outcome(
                            *codec,
                            records@,
                            changes@,
                            files@,
                            starts,
                            old(self).snapshots@,
                            old(self).references@,
                            Ok((final(self).snapshots@, final(self).references@)),
                        )
                        &&& step_is(old(self).scope, generation.physical_parent, step)
                        &&& final(self).phase == phase_after(step)
                    },
                    Err(e) => {
                        &&& final(self).phase is Rows
                        &&& collect_outcome(
                            *codec,
                            records@,
                            changes@,
                            files@,
                            starts,
                            old(self).snapshots@,
                            old(self).references@,
                            Err(e),
                        )
                    },
                }
            }),
    {
        let ghost before = self.commits@;
        note_id(&mut self.commits, commit);
        proof {
            if !before.contains(commit) {
                assert(self.commits@ =~= before.push(commit));
                assert forall|i: int, j: int|
                    0 <= i < self.commits@.len() && 0 <= j < self.commits@.len() && i
                        != j implies self.commits@[i] != self.commits@[j] by {
                    if i == before.len() {
                        assert(before.contains(self.commits@[j]));
                    }
                    if j == before.len() {
                        assert(before.contains(self.commits@[i]));
                    }
                }
            }
        }
        match collect_snapshot_files(
            codec,
            self.scope,
            refs,
            records,
            changes,
            files,
            &mut self.snapshots,
            &mut self.references,
        ) {
            Err(e) => {
                return Err(e);
            },
            Ok(()) => {},
        }
        let step = verification_step(self.scope, &generation.physical_parent);
        self.phase =
        match &step {
            VerificationStep::Finish => VerificationPhase::Objects,
            VerificationStep::FollowCommits => VerificationPhase::Commits,
            VerificationStep::Load(_) => VerificationPhase::Parent,
        };
        Ok(step)
    }

    /// Takes the generation before the one that was checked.
    pub fn take_parent(&mut self, child: &Generation, parent: &Generation) -> (r: Result<
        (),
        RuntimeError,
    >)
        requires
            old(self).wf(),
            old(self).phase is Parent,
        ensures
            final(self).wf(),
            same_frame(*old(self), *final(self)),
            final(self).commits@ == old(self).commits@,
            final(self).snapshots@ == old(self).snapshots@,
            final(self).references@ == old(self).references@,
            final(self).looked_at == old(self).looked_at,
            final(self).objects == old(self).objects,
            final(self).bytes == old(self).bytes,
            final(self).generations@ == noted(old(self).generations@, parent.generation_id),
            match r {
                Ok(()) => {
                    &&& edge_ok(*child, *parent, old(self).generations@)
                    &&& final(self).phase is Rows
                },
                Err(e) => {
                    &&& !edge_ok(*child, *parent, old(self).generations@)
                    &&& e@ == ErrorView::Corrupt("invalid retained generation ancestry"@)
                    &&& final(self).phase is Parent
                },
            },
    {
        let ghost before = self.generations@;
        let verdict = validate_generation_edge(child, parent, &mut self.generations);
        proof {
            let id = parent.generation_id;
            if !before.contains(id) {
                assert(self.generations@ =~= before.push(id));
                assert forall|i: int, j: int|
                    0 <= i < self.generations@.len() && 0 <= j < self.generations@.len() && i
                        != j implies self.generations@[i] != self.generations@[j] by {
                    if i == before.len() {
                        assert(before.contains(self.generations@[j]));
                    }
                    if j == before.len() {
                        assert(before.contains(self.generations@[i]));
                    }
                }
            }
        }
        match verdict {
            Err(e) => Err(e),
            Ok(()) => {
                self.phase = VerificationPhase::Rows;
                Ok(())
            },
        }
    }

    /// Takes a commit behind the oldest generation.
    pub fn take_commit(&mut self, commit: Id)
        requires
            old(self).wf(),
            old(self).phase is Commits,
        ensures
            final(self).wf(),
            final(self).commits@ == noted(old(self).commits@, commit),
            final(self).phase is Commits,
            same_frame(*old(self), *final(self)),
            final(self).generations@ == old(self).generations@,
            final(self).snapshots@ == old(self).snapshots@,
            final(self).references@ == old(self).references@,
            final(self).looked_at == old(self).looked_at,
            final(self).objects == old(self).objects,
            final(self).bytes == old(self).bytes,
    {
        let ghost before = self.commits@;
        note_id(&mut self.commits, commit);
        proof {
            if !before.contains(commit) {
                assert(self.commits@ =~= before.push(commit));
                assert forall|i: int, j: int|
                    0 <= i < self.commits@.len() && 0 <= j < self.commits@.len() && i
                        != j implies self.commits@[i] != self.commits@[j] by {
                    if i == before.len() {
                        assert(before.contains(self.commits@[j]));
                    }
                    if j == before.len() {
                        assert(before.contains(self.commits@[i]));
                    }
                }
            }
        }
    }

    /// The commits behind the oldest generation were followed and replayed.
    pub fn end_commits(&mut self)
        requires
            old(self).wf(),
            old(self).phase is Commits,
        ensures
            final(self).wf(),
            *final(self) == (Verification { phase: VerificationPhase::Objects, ..*old(self) }),
    {
        self.phase = VerificationPhase::Objects;
    }

    /// Looks at the next reference. `known` is what is known of its object, where
    /// it was read before.
    pub fn look(&mut self, known: Option<(Sha256, u64)>) -> (r: Result<ObjectStep, RuntimeError>)
        requires
            old(self).wf(),
            old(self).phase is Objects,
            old(self).looked_at < old(self).references@.len(),
        ensures
            final(self).wf(),
            ({
                let reference = old(self).references@[old(self).looked_at as int];
                match known {
                    None => {
                        &&& r matches Ok(ObjectStep::Read)
                        &&& *final(self) == (Verification {
                            phase: VerificationPhase::Bytes,
                            ..*old(self)
                        })
                    },
                    Some((sha256, length)) => if known_matches(reference, sha256, length) {
                        &&& r matches Ok(ObjectStep::Known)
                        &&& *final(self) == (Verification {
                            looked_at: (old(self).looked_at + 1) as usize,
                            ..*old(self)
                        })
                    } else {
                        &&& r matches Err(e) && e@ == ErrorView::Corrupt(
                            "conflicting object reference: "@ + reference.uri@,
                        )
                        &&& *final(self) == *old(self)
                    },
                }
            }),
    {
        let total: usize = self.references.len();
        assert(self.looked_at < total);
        let step = match object_step(&self.references[self.looked_at], known) {
            Err(e) => {
                return Err(e);
            },
            Ok(step) => step,
        };
        match step {
            ObjectStep::Known => {
                self.looked_at = self.looked_at + 1;
            },
            ObjectStep::Read => {
                self.phase = VerificationPhase::Bytes;
            },
        }
        Ok(step)
    }

    /// Counts an object that was read and found to be what its reference says.
    pub fn count(&mut self, length: u64)
        requires
            old(self).wf(),
            old(self).phase is Bytes,
            old(self).objects < u64::MAX,
            old(self).bytes + length <= u64::MAX,
        ensures
            final(self).wf(),
            *final(self) == (Verification {
                phase: VerificationPhase::Objects,
                looked_at: (old(self).looked_at + 1) as usize,
                objects: (old(self).objects + 1) as u64,
                bytes: (old(self).bytes + length) as u64,
                ..*old(self)
            }),
    {
        let total: usize = self.references.len();
        assert(self.looked_at < total);
        self.looked_at = self.looked_at + 1;
        self.objects = self.objects + 1;
        self.bytes = self.bytes + length;
        self.phase = VerificationPhase::Objects;
    }

    /// The report of a verification that found nothing wrong. `objects` documents
    /// of so many `bytes` were read on the way, each once.
    pub fn finish(self, objects: u64, bytes: u64) -> (report: VerificationReport)
        requires
            self.wf(),
            self.phase is Objects,
            self.looked_at == self.references@.len(),
            self.objects + objects <= u64::MAX,
            self.bytes + bytes <= u64::MAX,
        ensures
            report == (VerificationReport {
                scope: self.scope,
                anchor: self.anchor,
                completed: true,
                generations_checked: self.generations@.len() as u64,
                commits_checked: self.commits@.len() as u64,
                snapshots_checked: self.snapshots@.len() as u64,
                objects_checked: (self.objects + objects) as u64,
                bytes_checked: (self.bytes + bytes) as u64,
            }),
    {
        VerificationReport {
            scope: self.scope,
            anchor: self.anchor,
            completed: true,
            generations_checked: self.generations.len() as u64,
            commits_checked: self.commits.len() as u64,
            snapshots_checked: self.snapshots.len() as u64,
            objects_checked: self.objects + objects,
            bytes_checked: self.bytes + bytes,
        }
    }
}

} // verus!

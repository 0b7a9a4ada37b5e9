//! Whether a prepared append still stands after others have published.
use crate::catalog::{ref_of, ref_row, RefRow, RefType, SnapshotRow};
use crate::error::{corrupt, ErrorView, RuntimeError};
use crate::hash::Id;
use crate::history::{parse_refused, TextCodec};
use crate::pin::{check_operations, conflict, operations_conflict, rebase_tips};
use crate::reader_meta::{descent, snapshot_descends_from};
use crate::tables::CommitRow;
use crate::value::{values_view, CanonicalValue};
use vstd::prelude::*;

verus! {

/// What may come of the walk through the commits above `base`, in their order.
/// `last` is the version of the one before the walk goes on, `target` the version
/// that it has to reach.
pub open spec fn walk_outcome<C: TextCodec>(
    codec: C,
    name: Seq<char>,
    base: u64,
    last: u64,
    target: u64,
    commits: Seq<CommitRow>,
    r: Result<(), RuntimeError>,
) -> bool
    decreases commits.len(),
{
    if commits.len() == 0 {
        if last < target {
            r matches Err(e) && e@ == ErrorView::Corrupt(
                "commit operation history is incomplete"@,
            )
        } else {
            r is Ok
        }
    } else if commits[0].table_version <= base {
        walk_outcome(codec, name, base, last, target, commits.skip(1), r)
    } else if commits[0].table_version != last + 1 {
        r matches Err(e) && e@ == ErrorView::Corrupt("commit operation history is not contiguous"@)
    } else {
        ||| r matches Err(e) && parse_refused(codec, commits[0].operation_json, e)
        ||| exists|value: CanonicalValue|
            {
                &&& #[trigger] call_ensures(C::parse, (&codec, &commits[0].operation_json), Ok(value))
                &&& match value {
                    CanonicalValue::Array(operations) => match operations_conflict(
                        name,
                        values_view(operations@),
                    ) {
                        Some(problem) => r matches Err(e) && e@ == problem,
                        None => walk_outcome(
                            codec,
                            name,
                            base,
                            (last + 1) as u64,
                            target,
                            commits.skip(1),
                            r,
                        ),
                    },
                    _ => r matches Err(e) && e@ == ErrorView::Corrupt(
                        "commit operations are not a list"@,
                    ),
                }
            }
    }
}

fn walk_commits<C: TextCodec>(
    codec: &C,
    name: &String,
    base: u64,
    target: u64,
    commits: &Vec<CommitRow>,
) -> (r: Result<(), RuntimeError>)
    ensures
        walk_outcome(*codec, name@, base, base, target, commits@, r),
{
    let mut last: u64 = base;
    let mut i: usize = 0;
    assert(commits@.skip(0) =~= commits@);
    while i < commits.len()
        invariant
            i <= commits@.len(),
            base <= last,
            forall|r: Result<(), RuntimeError>| #[trigger]
                walk_outcome(*codec, name@, base, last, target, commits@.skip(i as int), r)
                    ==> walk_outcome(*codec, name@, base, base, target, commits@, r),
        decreases commits@.len() - i,
    {
        let ghost here = commits@.skip(i as int);
        assert(here[0] == commits@[i as int]);
        assert(here.skip(1) =~= commits@.skip(i + 1));
        let version: i64 = commits[i].table_version;
        let later: bool = version > 0 && version as u64 > base;
        if later {
            if last == u64::MAX || version as u64 != last + 1 {
                let r: Result<(), RuntimeError> = Err(
                    corrupt("commit operation history is not contiguous"),
                );
                assert(walk_outcome(*codec, name@, base, last, target, here, r));
                return r;
            }
            match codec.parse(&commits[i].operation_json) {
                Err(e) => {
                    assert(parse_refused(*codec, here[0].operation_json, e));
                    let r: Result<(), RuntimeError> = Err(e);
                    assert(walk_outcome(*codec, name@, base, last, target, here, r));
                    return r;
                },
                Ok(value) => {
                    let ghost shown = value;
                    assert(call_ensures(
                        C::parse,
                        (codec, &here[0].operation_json),
                        Ok::<CanonicalValue, RuntimeError>(shown),
                    ));
                    match value {
                        CanonicalValue::Array(operations) => {
                            if let Err(e) = check_operations(name, &operations) {
                                let r: Result<(), RuntimeError> = Err(e);
                                assert(walk_outcome(*codec, name@, base, last, target, here, r));
                                return r;
                            }
                        },
                        _ => {
                            let r: Result<(), RuntimeError> = Err(
                                corrupt("commit operations are not a list"),
                            );
                            assert(walk_outcome(*codec, name@, base, last, target, here, r));
                            return r;
                        },
                    }
                    assert forall|r: Result<(), RuntimeError>| #[trigger]
                        walk_outcome(
                            *codec,
                            name@,
                            base,
                            (last + 1) as u64,
                            target,
                            commits@.skip(i + 1),
                            r,
                        ) implies walk_outcome(*codec, name@, base, base, target, commits@, r) by {
                        assert(walk_outcome(*codec, name@, base, last, target, here, r));
                    }
                },
            }
            last = last + 1;
        } else {
            assert forall|r: Result<(), RuntimeError>| #[trigger]
                walk_outcome(*codec, name@, base, last, target, commits@.skip(i + 1), r) implies
                walk_outcome(*codec, name@, base, base, target, commits@, r) by {
                assert(walk_outcome(*codec, name@, base, last, target, here, r));
            }
        }
        i = i + 1;
    }
    let r: Result<(), RuntimeError> = if last < target {
        Err(corrupt("commit operation history is incomplete"))
    } else {
        Ok(())
    };
    assert(walk_outcome(*codec, name@, base, last, target, commits@.skip(i as int), r));
    r
}

/// What may come of an append to `name` that was prepared at version `base`, when
/// the table is at version `target`.
pub open spec fn rebase_outcome<C: TextCodec>(
    codec: C,
    refs: Seq<RefRow>,
    snapshots: Seq<SnapshotRow>,
    commits: Seq<CommitRow>,
    name: Seq<char>,
    original: Option<(RefType, Option<Id>)>,
    base: u64,
    target: u64,
    r: Result<(), RuntimeError>,
) -> bool {
    match (original, ref_of(refs, name)) {
        (Some((RefType::Branch, old_tip)), Some((RefType::Branch, tip))) => {
            let line = if old_tip is Some && tip != old_tip {
                descent(snapshots, tip, old_tip->0, u64::MAX as int)
            } else {
                Ok(true)
            };
            match line {
                Err(problem) => r matches Err(e) && e@ == problem,
                Ok(false) => r matches Err(e) && e@ == conflict(
                    "target is not an append descendant"@,
                ),
                Ok(true) => if base < target {
                    walk_outcome(codec, name, base, base, target, commits, r)
                } else {
                    r is Ok
                },
            }
        },
        (Some((RefType::Branch, _)), _) => r matches Err(e) && e@ == conflict(
            "append target removed"@,
        ),
        _ => r matches Err(e) && e@ == conflict("append target was not a branch"@),
    }
}

/// Checks that an append still stands on what has happened since its base: its
/// target has only grown by appends, and the current schema has stayed.
pub fn validate_append_rebase<C: TextCodec>(
    codec: &C,
    refs: &Vec<RefRow>,
    snapshots: &Vec<SnapshotRow>,
    commits: &Vec<CommitRow>,
    name: &String,
    original: &Option<(RefType, Option<Id>)>,
    base: u64,
    target: u64,
) -> (r: Result<(), RuntimeError>)
    ensures
        rebase_outcome(
            *codec,
            refs@,
            snapshots@,
            commits@,
            name@,
            *original,
            base,
            target,
            r,
        ),
{
    let current = ref_row(refs, name);
    match rebase_tips(original, &current) {
        Err(e) => {
            return Err(e);
        },
        Ok(None) => {},
        Ok(Some(line)) => {
            match snapshot_descends_from(snapshots, line.from, line.to) {
                Err(e) => {
                    return Err(e);
                },
                Ok(found) => {
                    if !found {
                        return Err(
                            RuntimeError::SemanticConflict(
                                "target is not an append descendant".to_owned(),
                            ),
                        );
                    }
                },
            }
        },
    }
    if base < target {
        walk_commits(codec, name, base, target, commits)
    } else {
        Ok(())
    }
}

/// A commit whose operations leave the target of an append and the current schema
/// alone.
pub open spec fn compatible<C: TextCodec>(codec: C, name: Seq<char>, row: CommitRow) -> bool {
    exists|value: CanonicalValue|
        {
            &&& #[trigger] call_ensures(C::parse, (&codec, &row.operation_json), Ok(value))
            &&& value matches CanonicalValue::Array(operations) && operations_conflict(
                name,
                values_view(operations@),
            ) is None
        }
}

pub open spec fn has_compatible<C: TextCodec>(
    codec: C,
    name: Seq<char>,
    commits: Seq<CommitRow>,
    version: int,
) -> bool {
    exists|i: int|
        0 <= i < commits.len() && (#[trigger] commits[i]).table_version == version && compatible(
            codec,
            name,
            commits[i],
        )
}

proof fn lemma_walk_is_complete<C: TextCodec>(
    codec: C,
    name: Seq<char>,
    base: u64,
    last: u64,
    target: u64,
    commits: Seq<CommitRow>,
    version: int,
)
    requires
        walk_outcome(codec, name, base, last, target, commits, Ok::<(), RuntimeError>(())),
        base <= last,
        last < version <= target,
    ensures
        has_compatible(codec, name, commits, version),
    decreases commits.len(),
{
    if commits.len() > 0 {
        let rest = commits.skip(1);
        if commits[0].table_version <= base {
            lemma_walk_is_complete(codec, name, base, last, target, rest, version);
        } else if version == last + 1 {
            assert(compatible(codec, name, commits[0]));
        } else {
            lemma_walk_is_complete(codec, name, base, (last + 1) as u64, target, rest, version);
        }
        if has_compatible(codec, name, rest, version) {
            let i = choose|i: int|
                0 <= i < rest.len() && (#[trigger] rest[i]).table_version == version && compatible(
                    codec,
                    name,
                    rest[i],
                );
            assert(commits[i + 1] == rest[i]);
        }
    }
}

/// An append is carried over to a later version only where every commit in
/// between is known, and each leaves its target and the current schema alone. The
/// target is still a branch, and where it had a snapshot, its tip is that one or
/// descends from it.
pub proof fn lemma_rebase_is_safe<C: TextCodec>(
    codec: C,
    refs: Seq<RefRow>,
    snapshots: Seq<SnapshotRow>,
    commits: Seq<CommitRow>,
    name: Seq<char>,
    original: Option<(RefType, Option<Id>)>,
    base: u64,
    target: u64,
)
    requires
        rebase_outcome(
            codec,
            refs,
            snapshots,
            commits,
            name,
            original,
            base,
            target,
            Ok::<(), RuntimeError>(()),
        ),
    ensures
        forall|version: int|
            base < version <= target ==> #[trigger] has_compatible(codec, name, commits, version),
        original matches Some((RefType::Branch, old_tip)) && (ref_of(refs, name) matches Some(
            (RefType::Branch, tip),
        ) && (old_tip matches Some(id) ==> tip == Some(id) || descent(
            snapshots,
            tip,
            id,
            u64::MAX as int,
        ) == Ok::<bool, ErrorView>(true))),
{
    assert forall|version: int| base < version <= target implies #[trigger] has_compatible(
        codec,
        name,
        commits,
        version,
    ) by {
        lemma_walk_is_complete(codec, name, base, base, target, commits, version);
    }
}

} // verus!

//! When an append stands on a later version of the table, said of the refs, the
//! snapshots and the commits in between.
use crate::catalog::{ref_of, snapshot_of, RefRow, RefType, SnapshotRow, Walk};
use crate::error::{ErrorView, RuntimeError};
use crate::hash::Id;
use crate::history::{parse_refused, TextCodec};
use crate::laws::lineages::{
    is_row_of, leads_back, least_of, lemma_row_found, lemma_walk_finds_the_lineage,
};
use crate::pin::{operation_conflict, operations_conflict};
use crate::reader_meta::{descent, lemma_descent_is_ancestry, snapshot_descends_from};
use crate::rebase::{validate_append_rebase, walk_outcome};
use crate::tables::CommitRow;
use crate::value::{member_of, values_view, CanonicalValue, ValueView};
use vstd::prelude::*;

verus! {

/// The first member with the key has the value.
pub open spec fn says(
    members: Seq<(Seq<char>, ValueView)>,
    key: Seq<char>,
    value: ValueView,
) -> bool {
    exists|i: int|
        {
            &&& 0 <= i < members.len()
            &&& #[trigger] members[i] == (key, value)
            &&& forall|j: int| 0 <= j < i ==> (#[trigger] members[j]).0 != key
        }
}

pub proof fn lemma_says(members: Seq<(Seq<char>, ValueView)>, key: Seq<char>, value: ValueView)
    ensures
        member_of(members, key) == Some(value) <==> says(members, key, value),
    decreases members.len(),
{
    if members.len() > 0 {
        let rest = members.skip(1);
        lemma_says(rest, key, value);
        assert forall|j: int| 0 < j < members.len() implies #[trigger] members[j] == rest[j
            - 1] by {}
        if members[0].0 == key {
            if says(members, key, value) {
                let i = choose|i: int|
                    {
                        &&& 0 <= i < members.len()
                        &&& #[trigger] members[i] == (key, value)
                        &&& forall|j: int| 0 <= j < i ==> (#[trigger] members[j]).0 != key
                    };
                assert(i == 0);
            }
            if member_of(members, key) == Some(value) {
                assert(members[0] == (key, value));
            }
        } else {
            if says(rest, key, value) {
                let i = choose|i: int|
                    {
                        &&& 0 <= i < rest.len()
                        &&& #[trigger] rest[i] == (key, value)
                        &&& forall|j: int| 0 <= j < i ==> (#[trigger] rest[j]).0 != key
                    };
                assert(members[i + 1] == (key, value));
            }
            if says(members, key, value) {
                let i = choose|i: int|
                    {
                        &&& 0 <= i < members.len()
                        &&& #[trigger] members[i] == (key, value)
                        &&& forall|j: int| 0 <= j < i ==> (#[trigger] members[j]).0 != key
                    };
                assert(rest[i - 1] == (key, value));
                assert forall|j: int| 0 <= j < i - 1 implies (#[trigger] rest[j]).0 != key by {
                    assert(rest[j] == members[j + 1]);
                }
            }
        }
    }
}

/// An operation that leaves a branch and the current schema alone: it speaks of
/// another ref or commits a snapshot, and does not choose a schema.
pub open spec fn leaves_alone(name: Seq<char>, operation: ValueView) -> bool {
    operation matches ValueView::Object(members) ==> {
        &&& says(members, "ref"@, ValueView::Text(name)) ==> says(
            members,
            "type"@,
            ValueView::Text("commit_snapshot"@),
        )
        &&& !says(members, "type"@, ValueView::Text("set_current_schema"@))
    }
}

pub open spec fn all_leave_alone(name: Seq<char>, operations: Seq<ValueView>) -> bool {
    forall|i: int| 0 <= i < operations.len() ==> leaves_alone(name, #[trigger] operations[i])
}

proof fn lemma_leaves_alone(name: Seq<char>, operations: Seq<ValueView>)
    ensures
        operations_conflict(name, operations) is None <==> all_leave_alone(name, operations),
        operations_conflict(name, operations) matches Some(e) ==> e is SemanticConflict,
    decreases operations.len(),
{
    if operations.len() > 0 {
        let rest = operations.skip(1);
        lemma_leaves_alone(name, rest);
        if let ValueView::Object(members) = operations[0] {
            lemma_says(members, "ref"@, ValueView::Text(name));
            lemma_says(members, "type"@, ValueView::Text("commit_snapshot"@));
            lemma_says(members, "type"@, ValueView::Text("set_current_schema"@));
        }
        assert(operation_conflict(name, operations[0]) is None <==> leaves_alone(
            name,
            operations[0],
        ));
        assert forall|i: int| 0 < i < operations.len() implies #[trigger] operations[i] == rest[i
            - 1] by {}
        if all_leave_alone(name, operations) {
            assert forall|i: int| 0 <= i < rest.len() implies leaves_alone(
                name,
                #[trigger] rest[i],
            ) by {
                assert(rest[i] == operations[i + 1]);
            }
        }
        if all_leave_alone(name, rest) && leaves_alone(name, operations[0]) {
            assert forall|i: int| 0 <= i < operations.len() implies leaves_alone(
                name,
                #[trigger] operations[i],
            ) by {
                if i > 0 {
                    assert(operations[i] == rest[i - 1]);
                }
            }
        }
    }
}

/// The path leads from the tip along parents to the ancestor, and sequence numbers
/// fall on the way.
pub open spec fn leads_to(
    rows: Seq<SnapshotRow>,
    tip: Option<Id>,
    path: Seq<Id>,
    places: Seq<int>,
    ancestor: Id,
) -> bool {
    &&& path.len() > 0
    &&& places.len() == path.len()
    &&& tip == Some(path[0])
    &&& path.last() == ancestor
    &&& forall|k: int| 0 <= k < path.len() ==> is_row_of(rows, #[trigger] places[k], path[k])
    &&& forall|k: int|
        0 <= k < path.len() - 1 ==> rows[#[trigger] places[k]].parent_snapshot_id == Some(
            path[k + 1],
        )
    &&& forall|k: int, l: int|
        0 <= k < l < path.len() ==> rows[#[trigger] places[k]].sequence_number
            > rows[#[trigger] places[l]].sequence_number >= 0
}

pub open spec fn descends(rows: Seq<SnapshotRow>, tip: Option<Id>, ancestor: Id) -> bool {
    exists|path: Seq<Id>, places: Seq<int>| #[trigger]
        leads_to(rows, tip, path, places, ancestor)
}

proof fn lemma_path(
    rows: Seq<SnapshotRow>,
    tip: Option<Id>,
    ancestor: Id,
    last: int,
) -> (r: (Seq<Id>, Seq<int>))
    requires
        descent(rows, tip, ancestor, last) == Ok::<bool, ErrorView>(true),
    ensures
        leads_to(rows, tip, r.0, r.1, ancestor),
        rows[r.1[0]].sequence_number < last,
        forall|k: int| 0 <= k < r.1.len() ==> rows[#[trigger] r.1[k]].sequence_number >= 0,
    decreases last,
{
    let id = tip->0;
    let row = snapshot_of(rows, id)->0;
    let i = lemma_row_found(rows, id);
    if id == ancestor {
        (seq![id], seq![i])
    } else {
        let (path, places) = lemma_path(
            rows,
            row.parent_snapshot_id,
            ancestor,
            row.sequence_number as int,
        );
        let longer = seq![id] + path;
        let on = seq![i] + places;
        assert(longer.last() == path.last());
        assert forall|k: int| 0 < k < on.len() implies #[trigger] on[k] == places[k - 1]
            && longer[k] == path[k - 1] by {}
        assert forall|k: int| 0 <= k < longer.len() implies is_row_of(
            rows,
            #[trigger] on[k],
            longer[k],
        ) by {
            if k > 0 {
                assert(is_row_of(rows, places[k - 1], path[k - 1]));
            }
        }
        assert forall|k: int| 0 <= k < longer.len() - 1 implies rows[#[trigger] on[k]]
            .parent_snapshot_id == Some(longer[k + 1]) by {
            if k > 0 {
                assert(rows[places[k - 1]].parent_snapshot_id == Some(path[k]));
            }
        }
        assert forall|k: int, l: int| 0 <= k < l < longer.len() implies rows[#[trigger] on[k]]
            .sequence_number > rows[#[trigger] on[l]].sequence_number >= 0 by {
            if k > 0 {
                assert(rows[places[k - 1]].sequence_number > rows[places[l - 1]].sequence_number
                    >= 0);
            } else if l > 1 {
                assert(rows[places[0]].sequence_number > rows[places[l - 1]].sequence_number >= 0);
            } else {
                assert(rows[places[0]].sequence_number >= 0);
            }
        }
        (longer, on)
    }
}

/// A snapshot is found to descend from another only where it is that one, or parents
/// lead from one to the other; and where the snapshots behind it are sound, the answer
/// is whether they hold the other.
pub proof fn lemma_descent_follows_parents(
    rows: Vec<SnapshotRow>,
    tip: Option<Id>,
    ancestor: Id,
    r: Result<bool, RuntimeError>,
)
    requires
        call_ensures(snapshot_descends_from, (&rows, tip, ancestor), r),
    ensures
        r matches Ok(true) ==> tip == Some(ancestor) || descends(rows@, tip, ancestor),
        tip == Some(ancestor) ==> r matches Ok(true),
        forall|chain: Seq<Id>, places: Seq<int>| #[trigger]
            leads_back(rows@, tip, chain, places, 0) ==> (r matches Ok(found) && found
                == chain.contains(ancestor)),
{
    if (r matches Ok(true)) && tip != Some(ancestor) {
        let (path, places) = lemma_path(rows@, tip, ancestor, u64::MAX as int);
        assert(leads_to(rows@, tip, path, places, ancestor));
    }
    assert forall|chain: Seq<Id>, places: Seq<int>| #[trigger]
        leads_back(rows@, tip, chain, places, 0) implies (r matches Ok(found) && found
        == chain.contains(ancestor)) by {
        assert(least_of(Walk::History) == 0);
        lemma_walk_finds_the_lineage(Walk::History, rows@, tip);
        lemma_descent_is_ancestry(rows@, tip, ancestor);
        if tip == Some(ancestor) {
            assert(chain[0] == ancestor);
        }
    }
}

/// The protocol reads the operations of the commit, and each leaves the branch and
/// the current schema alone.
pub open spec fn harmless<C: TextCodec>(codec: C, name: Seq<char>, row: CommitRow) -> bool {
    exists|value: CanonicalValue|
        {
            &&& #[trigger] call_ensures(C::parse, (&codec, &row.operation_json), Ok(value))
            &&& value matches CanonicalValue::Array(operations) && all_leave_alone(
                name,
                values_view(operations@),
            )
        }
}

/// Some outcome of reading the commit speaks against the append: it is refused, is no
/// list, or has an operation that does not leave the branch and the schema alone.
pub open spec fn harmful<C: TextCodec>(codec: C, name: Seq<char>, row: CommitRow) -> bool {
    ||| exists|e: RuntimeError| #[trigger] parse_refused(codec, row.operation_json, e)
    ||| exists|value: CanonicalValue|
        {
            &&& #[trigger] call_ensures(C::parse, (&codec, &row.operation_json), Ok(value))
            &&& !(value matches CanonicalValue::Array(operations) && all_leave_alone(
                name,
                values_view(operations@),
            ))
        }
}

pub open spec fn commit_at(commits: Seq<CommitRow>, i: int, version: int) -> bool {
    0 <= i < commits.len() && commits[i].table_version == version
}

pub open spec fn is_known(commits: Seq<CommitRow>, version: int) -> bool {
    exists|i: int| #[trigger] commit_at(commits, i, version)
}

/// The commits above the base stand in their order, without gaps, up to the target.
pub open spec fn in_line(commits: Seq<CommitRow>, base: int, last: int, target: int) -> bool
    decreases commits.len(),
{
    if commits.len() == 0 {
        last >= target
    } else if commits[0].table_version <= base {
        in_line(commits.skip(1), base, last, target)
    } else {
        commits[0].table_version == last + 1 && in_line(commits.skip(1), base, last + 1, target)
    }
}

proof fn lemma_walk<C: TextCodec>(
    codec: C,
    name: Seq<char>,
    base: u64,
    last: u64,
    target: u64,
    commits: Seq<CommitRow>,
    r: Result<(), RuntimeError>,
)
    requires
        walk_outcome(codec, name, base, last, target, commits, r),
        base <= last,
    ensures
        r is Ok ==> {
            &&& forall|version: int|
                last < version <= target ==> #[trigger] is_known(commits, version)
            &&& forall|i: int|
                0 <= i < commits.len() && (#[trigger] commits[i]).table_version > base ==> harmless(
                    codec,
                    name,
                    commits[i],
                )
        },
        r is Err ==> {
            ||| !in_line(commits, base as int, last as int, target as int)
            ||| exists|i: int|
                {
                    &&& 0 <= i < commits.len()
                    &&& (#[trigger] commits[i]).table_version > base
                    &&& harmful(codec, name, commits[i])
                }
        },
    decreases commits.len(),
{
    if commits.len() > 0 {
        let rest = commits.skip(1);
        assert forall|i: int| 0 < i < commits.len() implies #[trigger] commits[i] == rest[i
            - 1] by {}
        let row = commits[0];
        if row.table_version <= base {
            lemma_walk(codec, name, base, last, target, rest, r);
            lemma_moved(codec, name, base, last, last, target, commits, r);
        } else if row.table_version != last + 1 {
        } else if r matches Err(e) && parse_refused(codec, row.operation_json, e) {
            assert(harmful(codec, name, commits[0]));
        } else {
            let value = choose|value: CanonicalValue|
                {
                    &&& #[trigger] call_ensures(C::parse, (&codec, &row.operation_json), Ok(value))
                    &&& match value {
                        CanonicalValue::Array(operations) => match operations_conflict(
                            name,
                            values_view(operations@),
                        ) {
                            Some(problem) => r matches Err(e) && e@ == problem,
                            None => walk_outcome(
                                codec,
                                name,
                                base,
                                (last + 1) as u64,
                                target,
                                rest,
                                r,
                            ),
                        },
                        _ => r matches Err(e) && e@ == ErrorView::Corrupt(
                            "commit operations are not a list"@,
                        ),
                    }
                };
            assert(call_ensures(
                C::parse,
                (&codec, &row.operation_json),
                Ok::<CanonicalValue, RuntimeError>(value),
            ));
            match value {
                CanonicalValue::Array(operations) => {
                    lemma_leaves_alone(name, values_view(operations@));
                    if operations_conflict(name, values_view(operations@)) is None {
                        lemma_walk(codec, name, base, (last + 1) as u64, target, rest, r);
                        assert(harmless(codec, name, commits[0]));
                        lemma_moved(codec, name, base, (last + 1) as u64, last, target, commits, r);
                    } else {
                        assert(harmful(codec, name, commits[0]));
                    }
                },
                _ => {
                    assert(harmful(codec, name, commits[0]));
                },
            }
        }
    }
}

/// What is said of the commits behind the first one carries over to all.
proof fn lemma_moved<C: TextCodec>(
    codec: C,
    name: Seq<char>,
    base: u64,
    after: u64,
    last: u64,
    target: u64,
    commits: Seq<CommitRow>,
    r: Result<(), RuntimeError>,
)
    requires
        commits.len() > 0,
        base <= last,
        after == last || (after == last + 1 && commits[0].table_version == last + 1 && harmless(
            codec,
            name,
            commits[0],
        )),
        after == last ==> commits[0].table_version <= base,
        r is Ok ==> {
            &&& forall|version: int|
                after < version <= target ==> #[trigger] is_known(commits.skip(1), version)
            &&& forall|i: int|
                0 <= i < commits.skip(1).len() && (#[trigger] commits.skip(1)[i]).table_version
                    > base ==> harmless(codec, name, commits.skip(1)[i])
        },
        r is Err ==> {
            ||| !in_line(commits.skip(1), base as int, after as int, target as int)
            ||| exists|i: int|
                {
                    &&& 0 <= i < commits.skip(1).len()
                    &&& (#[trigger] commits.skip(1)[i]).table_version > base
                    &&& harmful(codec, name, commits.skip(1)[i])
                }
        },
    ensures
        r is Ok ==> {
            &&& forall|version: int|
                last < version <= target ==> #[trigger] is_known(commits, version)
            &&& forall|i: int|
                0 <= i < commits.len() && (#[trigger] commits[i]).table_version > base ==> harmless(
                    codec,
                    name,
                    commits[i],
                )
        },
        r is Err ==> {
            ||| !in_line(commits, base as int, last as int, target as int)
            ||| exists|i: int|
                {
                    &&& 0 <= i < commits.len()
                    &&& (#[trigger] commits[i]).table_version > base
                    &&& harmful(codec, name, commits[i])
                }
        },
{
    let rest = commits.skip(1);
    assert forall|i: int| 0 < i < commits.len() implies #[trigger] commits[i] == rest[i - 1] by {}
    if r is Ok {
        assert forall|version: int| last < version <= target implies #[trigger] is_known(
            commits,
            version,
        ) by {
            if version > after {
                assert(is_known(rest, version));
                let i = choose|i: int| #[trigger] commit_at(rest, i, version);
                assert(commit_at(commits, i + 1, version));
            } else {
                assert(commit_at(commits, 0, version));
            }
        }
        assert forall|i: int|
            0 <= i < commits.len() && (#[trigger] commits[i]).table_version > base implies harmless(
            codec,
            name,
            commits[i],
        ) by {
            if i > 0 {
                assert(rest[i - 1].table_version > base);
            }
        }
    } else if in_line(commits, base as int, last as int, target as int) {
        let i = choose|i: int|
            {
                &&& 0 <= i < rest.len()
                &&& (#[trigger] rest[i]).table_version > base
                &&& harmful(codec, name, rest[i])
            };
        assert(commits[i + 1] == rest[i]);
    }
}

/// The row at the place is the branch of the name: the first row with it.
pub open spec fn is_branch_row(refs: Seq<RefRow>, i: int, name: Seq<char>) -> bool {
    &&& 0 <= i < refs.len()
    &&& refs[i].name@ == name
    &&& refs[i].ref_type == RefType::Branch
    &&& forall|j: int| 0 <= j < i ==> (#[trigger] refs[j]).name@ != name
}

proof fn lemma_branch_row(refs: Seq<RefRow>, name: Seq<char>) -> (i: int)
    ensures
        match ref_of(refs, name) {
            Some((RefType::Branch, tip)) => is_branch_row(refs, i, name) && refs[i].snapshot_id
                == tip,
            _ => forall|k: int| !#[trigger] is_branch_row(refs, k, name),
        },
    decreases refs.len(),
{
    if refs.len() == 0 {
        0
    } else if refs[0].name@ == name {
        if refs[0].ref_type != RefType::Branch {
            assert forall|k: int| !#[trigger] is_branch_row(refs, k, name) by {
                if k > 0 && is_branch_row(refs, k, name) {
                    assert(refs[0].name@ != name);
                }
            }
        }
        0
    } else {
        let rest = refs.skip(1);
        let i = lemma_branch_row(rest, name);
        assert forall|j: int| 0 < j < refs.len() implies #[trigger] refs[j] == rest[j - 1] by {}
        match ref_of(rest, name) {
            Some((RefType::Branch, _)) => {},
            _ => {
                assert forall|k: int| !#[trigger] is_branch_row(refs, k, name) by {
                    if is_branch_row(refs, k, name) {
                        assert forall|j: int| 0 <= j < k - 1 implies (#[trigger] rest[j]).name@
                            != name by {
                            assert(rest[j] == refs[j + 1]);
                        }
                        assert(is_branch_row(rest, k - 1, name));
                    }
                }
            },
        }
        i + 1
    }
}

proof fn lemma_one_branch_row(refs: Seq<RefRow>, i: int, k: int, name: Seq<char>)
    requires
        is_branch_row(refs, i, name),
        is_branch_row(refs, k, name),
    ensures
        i == k,
{
    if i < k {
        assert(refs[i].name@ != name);
    } else if k < i {
        assert(refs[k].name@ != name);
    }
}

/// An append that was prepared on a branch is carried over only where the branch is
/// still there, its tip is the old one or descends from it, every version since is
/// known, and all of them leave the branch and the current schema alone. It is not
/// refused without a reason: where the target was and is a branch, the tip leads back
/// to the old one, and the commits stand in line, some commit speaks against it.
pub proof fn lemma_carried_appends<C: TextCodec>(
    codec: C,
    refs: Vec<RefRow>,
    snapshots: Vec<SnapshotRow>,
    commits: Vec<CommitRow>,
    name: String,
    original: Option<(RefType, Option<Id>)>,
    base: u64,
    target: u64,
    r: Result<(), RuntimeError>,
)
    requires
        call_ensures(
            validate_append_rebase::<C>,
            (&codec, &refs, &snapshots, &commits, &name, &original, base, target),
            r,
        ),
    ensures
        r is Ok ==> {
            &&& original matches Some((RefType::Branch, old_tip)) && exists|i: int|
                {
                    &&& #[trigger] is_branch_row(refs@, i, name@)
                    &&& old_tip matches Some(id) ==> refs@[i].snapshot_id == Some(id) || descends(
                        snapshots@,
                        refs@[i].snapshot_id,
                        id,
                    )
                }
            &&& forall|version: int|
                base < version <= target ==> #[trigger] is_known(commits@, version)
            &&& base < target ==> forall|i: int|
                0 <= i < commits@.len() && (#[trigger] commits@[i]).table_version > base
                    ==> harmless(codec, name@, commits@[i])
        },
        r is Err && (original matches Some((RefType::Branch, old_tip)) && exists|i: int|
            {
                &&& #[trigger] is_branch_row(refs@, i, name@)
                &&& old_tip matches Some(id) ==> {
                    ||| refs@[i].snapshot_id == Some(id)
                    ||| exists|chain: Seq<Id>, places: Seq<int>|
                        chain.contains(id) && #[trigger] leads_back(
                            snapshots@,
                            refs@[i].snapshot_id,
                            chain,
                            places,
                            0,
                        )
                }
            }) ==> {
            &&& base < target
            &&& {
                ||| !in_line(commits@, base as int, base as int, target as int)
                ||| exists|i: int|
                    {
                        &&& 0 <= i < commits@.len()
                        &&& (#[trigger] commits@[i]).table_version > base
                        &&& harmful(codec, name@, commits@[i])
                    }
            }
        },
{
    let k = lemma_branch_row(refs@, name@);
    match (original, ref_of(refs@, name@)) {
        (Some((RefType::Branch, old_tip)), Some((RefType::Branch, tip))) => {
            assert(is_branch_row(refs@, k, name@));
            assert forall|i: int| #[trigger] is_branch_row(refs@, i, name@) implies i == k by {
                lemma_one_branch_row(refs@, i, k, name@);
            }
            if old_tip is Some && tip != old_tip {
                let id = old_tip->0;
                if descent(snapshots@, tip, id, u64::MAX as int) == Ok::<bool, ErrorView>(true) {
                    let (path, places) = lemma_path(snapshots@, tip, id, u64::MAX as int);
                    assert(leads_to(snapshots@, tip, path, places, id));
                    if base < target {
                        lemma_walk(codec, name@, base, base, target, commits@, r);
                    }
                } else {
                    assert forall|chain: Seq<Id>, places: Seq<int>| #[trigger]
                        leads_back(snapshots@, tip, chain, places, 0) implies !chain.contains(
                        id,
                    ) by {
                        assert(least_of(Walk::History) == 0);
                        lemma_walk_finds_the_lineage(Walk::History, snapshots@, tip);
                        lemma_descent_is_ancestry(snapshots@, tip, id);
                    }
                }
            } else if base < target {
                lemma_walk(codec, name@, base, base, target, commits@, r);
            }
        },
        _ => {},
    }
}

} // verus!

//! Validation of a metadata image: that its rows agree with each other and with
//! the head that names it.
use crate::catalog::{ancestry, lineage, SnapshotRow, Walk};
use crate::error::{corrupt, ErrorView, ProtocolError, RuntimeError};
use crate::hash::{Id, Sha256};
use crate::schema::{kind_view, KindView};
use crate::schema_rows::{rows_check, validate_rows};
use crate::tables::{
    sqlite_i64, stored, BoundFacts, ChangeRow, CommitRow, FeatureRow, FieldRow, FileRecord,
    ImageRows, IntentRow, LiveRow, MetaRow, MetricFacts, MetricRecord, PartitionFacts, RefRecord,
    SchemaRecord, SnapshotRecord,
};
use crate::text::{joined, reads, texts_view};
use vstd::prelude::*;

verus! {

pub const PAGE_SIZE: u32 = 4096;

pub const APPLICATION_ID: i64 = 0x4f54_4d50;

pub const USER_VERSION: i64 = 2;

/// What the head and its commit say of an image.
#[derive(Debug)]
pub struct ExpectedImage {
    pub table_id: Id,
    pub table_version: u64,
    pub semantic_state: Sha256,
    pub commit_id: Id,
    pub commit_hash: Sha256,
    pub commit_uri: String,
    pub reader_features_json: String,
    pub writer_features_json: String,
    /// The same features, each by its name.
    pub reader_features: Vec<String>,
    pub writer_features: Vec<String>,
    pub previous_semantic_state: Option<Sha256>,
}

pub open spec fn corrupt_view(message: Seq<char>) -> ErrorView {
    ErrorView::Corrupt(message)
}

pub open spec fn meta_matches(meta: MetaRow, expected: ExpectedImage) -> bool {
    &&& meta.protocol@ == "otmp"@
    &&& meta.protocol_version@ == "0.0.2-alpha"@
    &&& meta.table_id == expected.table_id
    &&& meta.table_version == expected.table_version
    &&& meta.semantic_state == expected.semantic_state
    &&& meta.last_commit_id == expected.commit_id
    &&& meta.last_commit_sha256 == expected.commit_hash
    &&& meta.reader_features_json@ == expected.reader_features_json@
    &&& meta.writer_features_json@ == expected.writer_features_json@
}

fn meta_is(meta: &MetaRow, expected: &ExpectedImage) -> (same: bool)
    ensures
        same == meta_matches(*meta, *expected),
{
    reads(&meta.protocol, "otmp") && reads(&meta.protocol_version, "0.0.2-alpha") && meta.table_id
        == expected.table_id && meta.table_version >= 0 && meta.table_version as u64
        == expected.table_version && meta.semantic_state == expected.semantic_state
        && meta.last_commit_id == expected.commit_id && meta.last_commit_sha256
        == expected.commit_hash && meta.reader_features_json == expected.reader_features_json
        && meta.writer_features_json == expected.writer_features_json
}

pub open spec fn has_schema(schemas: Seq<SchemaRecord>, id: i64) -> bool {
    exists|i: int| 0 <= i < schemas.len() && (#[trigger] schemas[i]).schema_id == id
}

pub open spec fn defaults_exist(rows: ImageRows) -> bool {
    &&& has_schema(rows.schemas@, rows.meta.current_schema_id)
    &&& rows.partition_specs@.contains(rows.meta.default_partition_spec_id)
    &&& rows.sort_orders@.contains(rows.meta.default_sort_order_id)
}

fn lists_number(numbers: &Vec<i64>, n: i64) -> (found: bool)
    ensures
        found == numbers@.contains(n),
{
    let mut i: usize = 0;
    while i < numbers.len()
        invariant
            i <= numbers@.len(),
            forall|k: int| 0 <= k < i ==> #[trigger] numbers@[k] != n,
        decreases numbers@.len() - i,
    {
        if numbers[i] == n {
            return true;
        }
        i = i + 1;
    }
    false
}

fn lists_schema(schemas: &Vec<SchemaRecord>, id: i64) -> (found: bool)
    ensures
        found == has_schema(schemas@, id),
{
    let mut i: usize = 0;
    while i < schemas.len()
        invariant
            i <= schemas@.len(),
            forall|k: int| 0 <= k < i ==> (#[trigger] schemas@[k]).schema_id != id,
        decreases schemas@.len() - i,
    {
        if schemas[i].schema_id == id {
            return true;
        }
        i = i + 1;
    }
    false
}

pub open spec fn is_last_commit(commit: CommitRow, expected: ExpectedImage) -> bool {
    &&& commit.table_version == expected.table_version
    &&& commit.commit_id == expected.commit_id
    &&& commit.semantic_state == expected.semantic_state
    &&& commit.uri@ == expected.commit_uri@
    &&& commit.sha256 == expected.commit_hash
}

/// How many rows are the expected last commit.
pub open spec fn last_commits(commits: Seq<CommitRow>, expected: ExpectedImage) -> nat
    decreases commits.len(),
{
    if commits.len() == 0 {
        0
    } else {
        last_commits(commits.drop_last(), expected) + (if is_last_commit(commits.last(), expected) {
            1nat
        } else {
            0nat
        })
    }
}

fn count_last_commits(commits: &Vec<CommitRow>, expected: &ExpectedImage) -> (count: usize)
    ensures
        count == last_commits(commits@, *expected),
{
    let mut count: usize = 0;
    let mut i: usize = 0;
    assert(commits@.take(0) =~= Seq::<CommitRow>::empty());
    while i < commits.len()
        invariant
            i <= commits@.len(),
            count <= i,
            count == last_commits(commits@.take(i as int), *expected),
        decreases commits@.len() - i,
    {
        assert(commits@.take(i + 1).drop_last() =~= commits@.take(i as int));
        let commit = &commits[i];
        if commit.table_version >= 0 && commit.table_version as u64 == expected.table_version
            && commit.commit_id == expected.commit_id && commit.semantic_state
            == expected.semantic_state && commit.uri == expected.commit_uri && commit.sha256
            == expected.commit_hash {
            count = count + 1;
        }
        i = i + 1;
    }
    assert(commits@.take(i as int) =~= commits@);
    count
}

/// How many intents a commit has.
pub open spec fn intents_of(intents: Seq<IntentRow>, commit: CommitRow) -> nat
    decreases intents.len(),
{
    if intents.len() == 0 {
        0
    } else {
        intents_of(intents.drop_last(), commit) + (if intents.last().commit_id == commit.commit_id
            && intents.last().table_version == commit.table_version {
            1nat
        } else {
            0nat
        })
    }
}

/// Every commit has as many intents as it says.
pub open spec fn paired(rows: ImageRows) -> bool {
    forall|i: int|
        0 <= i < rows.commits@.len() ==> (#[trigger] rows.commits@[i]).intent_count == intents_of(
            rows.intents@,
            rows.commits@[i],
        )
}

fn count_intents(intents: &Vec<IntentRow>, commit: &CommitRow) -> (count: usize)
    ensures
        count == intents_of(intents@, *commit),
{
    let mut count: usize = 0;
    let mut i: usize = 0;
    assert(intents@.take(0) =~= Seq::<IntentRow>::empty());
    while i < intents.len()
        invariant
            i <= intents@.len(),
            count <= i,
            count == intents_of(intents@.take(i as int), *commit),
        decreases intents@.len() - i,
    {
        assert(intents@.take(i + 1).drop_last() =~= intents@.take(i as int));
        if intents[i].commit_id == commit.commit_id && intents[i].table_version
            == commit.table_version {
            count = count + 1;
        }
        i = i + 1;
    }
    assert(intents@.take(i as int) =~= intents@);
    count
}

fn is_paired(rows: &ImageRows) -> (ok: bool)
    ensures
        ok == paired(*rows),
{
    let mut i: usize = 0;
    while i < rows.commits.len()
        invariant
            i <= rows.commits@.len(),
            forall|k: int|
                0 <= k < i ==> (#[trigger] rows.commits@[k]).intent_count == intents_of(
                    rows.intents@,
                    rows.commits@[k],
                ),
        decreases rows.commits@.len() - i,
    {
        let count: usize = count_intents(&rows.intents, &rows.commits[i]);
        let claimed: i64 = rows.commits[i].intent_count;
        if claimed < 0 || claimed as u64 != count as u64 {
            return false;
        }
        i = i + 1;
    }
    true
}

/// One commit for each version up to the given one: as many as there are
/// versions, from zero to the last, and no two of one version.
pub open spec fn contiguous(commits: Seq<CommitRow>, version: u64) -> bool {
    &&& commits.len() == version + 1
    &&& one_per_version(commits)
    &&& version < i64::MAX
    &&& forall|i: int|
        0 <= i < commits.len() ==> 0 <= (#[trigger] commits[i]).table_version <= version
    &&& exists|i: int| 0 <= i < commits.len() && (#[trigger] commits[i]).table_version == 0
    &&& exists|i: int| 0 <= i < commits.len() && (#[trigger] commits[i]).table_version == version
}

/// No two commits have the same version.
pub open spec fn one_per_version(commits: Seq<CommitRow>) -> bool {
    forall|i: int, j: int|
        #![trigger commits[i], commits[j]]
        0 <= i < j < commits.len() ==> commits[i].table_version != commits[j].table_version
}

/// A contiguous history has a commit for every version up to the last.
pub proof fn lemma_contiguous_has_every_version(commits: Seq<CommitRow>, version: u64, v: int)
    requires
        contiguous(commits, version),
        0 <= v <= version,
    ensures
        exists|i: int| 0 <= i < commits.len() && (#[trigger] commits[i]).table_version == v,
{
    let versions = Seq::new(commits.len(), |i: int| commits[i].table_version as int);
    assert(versions.no_duplicates());
    versions.unique_seq_to_set();
    let range = vstd::set_lib::set_int_range(0, version + 1);
    vstd::set_lib::lemma_int_range(0, version + 1);
    assert(versions.to_set().subset_of(range)) by {
        assert forall|x: int| #[trigger] versions.to_set().contains(x) implies range.contains(x) by {
            let i = choose|i: int| 0 <= i < versions.len() && versions[i] == x;
            assert(0 <= commits[i].table_version <= version);
        }
    }
    vstd::set_lib::lemma_subset_equality(versions.to_set(), range);
    assert(range.contains(v));
    assert(versions.contains(v));
    let i = choose|i: int| 0 <= i < versions.len() && versions[i] == v;
    assert(commits[i].table_version == v);
}

fn is_contiguous(commits: &Vec<CommitRow>, version: u64) -> (ok: bool)
    ensures
        ok == contiguous(commits@, version),
{
    if version >= i64::MAX as u64 || commits.len() as u64 != version + 1 {
        return false;
    }
    let mut first: bool = false;
    let mut last: bool = false;
    let mut seen: Vec<bool> = Vec::new();
    while seen.len() < commits.len()
        invariant
            seen@.len() <= commits@.len(),
            forall|v: int| 0 <= v < seen@.len() ==> !#[trigger] seen@[v],
        decreases commits@.len() - seen@.len(),
    {
        seen.push(false);
    }
    let mut i: usize = 0;
    while i < commits.len()
        invariant
            i <= commits@.len(),
            version < i64::MAX,
            commits@.len() == version + 1,
            seen@.len() == commits@.len(),
            forall|v: int|
                0 <= v < seen@.len() ==> (#[trigger] seen@[v] <==> exists|k: int|
                    0 <= k < i && (#[trigger] commits@[k]).table_version == v),
            forall|a: int, b: int|
                #![trigger commits@[a], commits@[b]]
                0 <= a < b < i ==> commits@[a].table_version != commits@[b].table_version,
            forall|k: int|
                0 <= k < i ==> 0 <= (#[trigger] commits@[k]).table_version <= version,
            first <==> exists|k: int|
                0 <= k < i && (#[trigger] commits@[k]).table_version == 0,
            last <==> exists|k: int|
                0 <= k < i && (#[trigger] commits@[k]).table_version == version,
        decreases commits@.len() - i,
    {
        let v: i64 = commits[i].table_version;
        if v < 0 || v as u64 > version {
            return false;
        }
        let at: usize = v as usize;
        if seen[at] {
            proof {
                let k = choose|k: int|
                    0 <= k < i && (#[trigger] commits@[k]).table_version == at;
                assert(commits@[k].table_version == commits@[i as int].table_version);
            }
            return false;
        }
        let ghost before = seen@;
        seen.set(at, true);
        proof {
            assert forall|w: int| 0 <= w < seen@.len() implies (#[trigger] seen@[w] <==> exists|
                k: int,
            |
                0 <= k < i + 1 && (#[trigger] commits@[k]).table_version == w) by {
                if w == at {
                    assert(commits@[i as int].table_version == w);
                } else {
                    assert(seen@[w] == before[w]);
                    if before[w] {
                        let k = choose|k: int|
                            0 <= k < i && (#[trigger] commits@[k]).table_version == w;
                        assert(commits@[k].table_version == w);
                    }
                    if exists|k: int|
                        0 <= k < i + 1 && (#[trigger] commits@[k]).table_version == w {
                        let k = choose|k: int|
                            0 <= k < i + 1 && (#[trigger] commits@[k]).table_version == w;
                        assert(k < i);
                    }
                }
            }
            assert forall|a: int, b: int|
                #![trigger commits@[a], commits@[b]]
                0 <= a < b < i + 1 implies commits@[a].table_version
                != commits@[b].table_version by {
                if b == i && commits@[a].table_version == v {
                    assert(before[at as int]);
                }
            }
        }
        if v == 0 {
            first = true;
        }
        if v as u64 == version {
            last = true;
        }
        i = i + 1;
    }
    first && last
}

/// The state after the commit of a version, if it is listed.
pub open spec fn state_at(commits: Seq<CommitRow>, version: int) -> Option<Sha256>
    decreases commits.len(),
{
    if commits.len() == 0 {
        None
    } else if commits[0].table_version == version {
        Some(commits[0].semantic_state)
    } else {
        state_at(commits.skip(1), version)
    }
}

fn find_state(commits: &Vec<CommitRow>, version: i64) -> (found: Option<Sha256>)
    ensures
        found == state_at(commits@, version as int),
{
    assert(commits@.skip(0) =~= commits@);
    let mut i: usize = 0;
    while i < commits.len()
        invariant
            i <= commits@.len(),
            state_at(commits@, version as int) == state_at(
                commits@.skip(i as int),
                version as int,
            ),
        decreases commits@.len() - i,
    {
        assert(commits@.skip(i as int).skip(1) =~= commits@.skip(i + 1));
        if commits[i].table_version == version {
            return Some(commits[i].semantic_state);
        }
        i = i + 1;
    }
    None
}

pub open spec fn previous_state(rows: ImageRows, version: u64) -> Option<Sha256> {
    if version == 0 {
        None
    } else {
        state_at(rows.commits@, version - 1)
    }
}

pub fn same_hash(a: &Option<Sha256>, b: &Option<Sha256>) -> (same: bool)
    ensures
        same == (*a == *b),
{
    match (a, b) {
        (Some(a), Some(b)) => *a == *b,
        (None, None) => true,
        _ => false,
    }
}

/// A snapshot that its version and its sequence number allow.
pub open spec fn snapshot_in_range(s: SnapshotRecord, version: int) -> bool {
    1 <= s.committed_table_version <= version && s.row.sequence_number >= 1
}

/// A snapshot whose parent is an older one.
pub open spec fn follows_parent(snapshots: Seq<SnapshotRecord>, s: SnapshotRecord) -> bool {
    s.row.parent_snapshot_id matches Some(parent) ==> exists|i: int|
        {
            &&& 0 <= i < snapshots.len()
            &&& (#[trigger] snapshots[i]).row.snapshot_id == parent
            &&& snapshots[i].row.sequence_number < s.row.sequence_number
            &&& snapshots[i].committed_table_version < s.committed_table_version
        }
}

pub open spec fn ref_in_shape(r: RefRecord, version: int) -> bool {
    &&& r.created_version <= r.updated_version <= version
    &&& !(r.ref_type@ == "tag"@ && r.snapshot_id is None)
}

pub open spec fn is_main(r: RefRecord) -> bool {
    r.name@ == "main"@ && r.ref_type@ == "branch"@ && r.created_version == 0
}

pub open spec fn apart(a: SnapshotRecord, b: SnapshotRecord) -> bool {
    a.row.sequence_number != b.row.sequence_number && a.committed_table_version
        != b.committed_table_version
}

/// The rules on snapshots, sequence numbers, ancestry and refs. The sequence
/// numbers are all different and none is above their number, so that they are
/// one, two and so on.
pub open spec fn history_holds(rows: ImageRows, version: int, last_sequence: i64) -> bool {
    let snapshots = rows.snapshots@;
    &&& forall|i: int|
        0 <= i < snapshots.len() ==> snapshot_in_range(#[trigger] snapshots[i], version)
    &&& forall|i: int, j: int|
        0 <= i < j < snapshots.len() ==> apart(#[trigger] snapshots[i], #[trigger] snapshots[j])
    &&& last_sequence == snapshots.len()
    &&& forall|i: int|
        0 <= i < snapshots.len() ==> (#[trigger] snapshots[i]).row.sequence_number <= last_sequence
    &&& snapshots.len() > 0 ==> exists|i: int|
        0 <= i < snapshots.len() && (#[trigger] snapshots[i]).row.sequence_number == last_sequence
    &&& forall|i: int|
        0 <= i < snapshots.len() ==> follows_parent(snapshots, #[trigger] snapshots[i])
    &&& forall|i: int|
        0 <= i < rows.refs@.len() ==> ref_in_shape(#[trigger] rows.refs@[i], version)
    &&& exists|i: int| 0 <= i < rows.refs@.len() && is_main(#[trigger] rows.refs@[i])
}

fn parent_is_older(snapshots: &Vec<SnapshotRecord>, s: &SnapshotRecord) -> (ok: bool)
    ensures
        ok == follows_parent(snapshots@, *s),
{
    match s.row.parent_snapshot_id {
        None => true,
        Some(parent) => {
            let mut i: usize = 0;
            while i < snapshots.len()
                invariant
                    i <= snapshots@.len(),
                    s.row.parent_snapshot_id == Some(parent),
                    forall|k: int|
                        0 <= k < i ==> !((#[trigger] snapshots@[k]).row.snapshot_id == parent
                            && snapshots@[k].row.sequence_number < s.row.sequence_number
                            && snapshots@[k].committed_table_version < s.committed_table_version),
                decreases snapshots@.len() - i,
            {
                let other = &snapshots[i];
                if other.row.snapshot_id == parent && other.row.sequence_number
                    < s.row.sequence_number && other.committed_table_version
                    < s.committed_table_version {
                    return true;
                }
                i = i + 1;
            }
            false
        },
    }
}

fn all_apart(snapshots: &Vec<SnapshotRecord>) -> (ok: bool)
    ensures
        ok == (forall|i: int, j: int|
            0 <= i < j < snapshots@.len() ==> apart(
                #[trigger] snapshots@[i],
                #[trigger] snapshots@[j],
            )),
{
    let mut i: usize = 0;
    while i < snapshots.len()
        invariant
            i <= snapshots@.len(),
            forall|a: int, b: int|
                0 <= a < b < snapshots@.len() && a < i ==> apart(
                    #[trigger] snapshots@[a],
                    #[trigger] snapshots@[b],
                ),
        decreases snapshots@.len() - i,
    {
        let mut j: usize = i + 1;
        while j < snapshots.len()
            invariant
                i < j <= snapshots@.len(),
                forall|b: int|
                    i < b < j ==> apart(snapshots@[i as int], #[trigger] snapshots@[b]),
            decreases snapshots@.len() - j,
        {
            if snapshots[i].row.sequence_number == snapshots[j].row.sequence_number
                || snapshots[i].committed_table_version == snapshots[j].committed_table_version {
                assert(!apart(snapshots@[i as int], snapshots@[j as int]));
                return false;
            }
            j = j + 1;
        }
        i = i + 1;
    }
    true
}

fn history_is_sound(rows: &ImageRows, version: i64, last_sequence: i64) -> (ok: bool)
    ensures
        ok == history_holds(*rows, version as int, last_sequence),
{
    let snapshots = &rows.snapshots;
    if last_sequence < 0 || last_sequence as u64 != snapshots.len() as u64 || !all_apart(snapshots) {
        return false;
    }
    let mut top: bool = false;
    let mut i: usize = 0;
    while i < snapshots.len()
        invariant
            i <= snapshots@.len(),
            *snapshots == rows.snapshots,
            forall|k: int|
                0 <= k < i ==> {
                    &&& snapshot_in_range(#[trigger] snapshots@[k], version as int)
                    &&& snapshots@[k].row.sequence_number <= last_sequence
                    &&& follows_parent(snapshots@, snapshots@[k])
                },
            top <==> exists|k: int|
                0 <= k < i && (#[trigger] snapshots@[k]).row.sequence_number == last_sequence,
        decreases snapshots@.len() - i,
    {
        let s = &snapshots[i];
        if s.committed_table_version < 1 || s.committed_table_version > version
            || s.row.sequence_number < 1 || s.row.sequence_number > last_sequence
            || !parent_is_older(snapshots, s) {
            assert(snapshots@[i as int] == *s);
            return false;
        }
        if s.row.sequence_number == last_sequence {
            top = true;
        }
        i = i + 1;
    }
    if snapshots.len() > 0 && !top {
        return false;
    }
    let mut main: bool = false;
    let mut j: usize = 0;
    while j < rows.refs.len()
        invariant
            j <= rows.refs@.len(),
            forall|k: int| 0 <= k < j ==> ref_in_shape(#[trigger] rows.refs@[k], version as int),
            main <==> exists|k: int| 0 <= k < j && is_main(#[trigger] rows.refs@[k]),
        decreases rows.refs@.len() - j,
    {
        let r = &rows.refs[j];
        if r.created_version > r.updated_version || r.updated_version > version || (reads(
            &r.ref_type,
            "tag",
        ) && r.snapshot_id.is_none()) {
            assert(rows.refs@[j as int] == *r);
            return false;
        }
        if reads(&r.name, "main") && reads(&r.ref_type, "branch") && r.created_version == 0 {
            main = true;
            assert(is_main(rows.refs@[j as int]));
        }
        j = j + 1;
    }
    main
}

pub open spec fn history_check(rows: ImageRows, version: u64, last_sequence: i64) -> Result<
    (),
    ErrorView,
> {
    match stored(version, "table version"@) {
        Err(e) => Err(e),
        Ok(v) => if history_holds(rows, v as int, last_sequence) {
            Ok(())
        } else {
            Err(corrupt_view("snapshot, sequence, ancestry, or ref invariant violated"@))
        },
    }
}

/// Checks snapshots, sequence numbers, ancestry and refs.
pub fn validate_relational_history(
    rows: &ImageRows,
    table_version: u64,
    last_sequence_number: i64,
) -> (r: Result<(), RuntimeError>)
    ensures
        match r {
            Ok(()) => history_check(*rows, table_version, last_sequence_number) is Ok,
            Err(e) => history_check(*rows, table_version, last_sequence_number) == Err::<
                (),
                ErrorView,
            >(e@),
        },
{
    let version: i64 = match sqlite_i64(table_version, "table version") {
        Err(e) => {
            return Err(e);
        },
        Ok(v) => v,
    };
    if !history_is_sound(rows, version, last_sequence_number) {
        return Err(corrupt("snapshot, sequence, ancestry, or ref invariant violated"));
    }
    Ok(())
}

pub open spec fn has_snapshot(snapshots: Seq<SnapshotRecord>, id: Id) -> bool {
    exists|i: int| 0 <= i < snapshots.len() && (#[trigger] snapshots[i]).row.snapshot_id == id
}

pub open spec fn refs_resolve(rows: ImageRows) -> bool {
    forall|i: int|
        0 <= i < rows.refs@.len() ==> ((#[trigger] rows.refs@[i]).snapshot_id matches Some(id)
            ==> has_snapshot(rows.snapshots@, id))
}

fn lists_snapshot(snapshots: &Vec<SnapshotRecord>, id: &Id) -> (found: bool)
    ensures
        found == has_snapshot(snapshots@, *id),
{
    let mut i: usize = 0;
    while i < snapshots.len()
        invariant
            i <= snapshots@.len(),
            forall|k: int| 0 <= k < i ==> (#[trigger] snapshots@[k]).row.snapshot_id != *id,
        decreases snapshots@.len() - i,
    {
        if snapshots[i].row.snapshot_id == *id {
            return true;
        }
        i = i + 1;
    }
    false
}

fn all_refs_resolve(rows: &ImageRows) -> (ok: bool)
    ensures
        ok == refs_resolve(*rows),
{
    let mut i: usize = 0;
    while i < rows.refs.len()
        invariant
            i <= rows.refs@.len(),
            forall|k: int|
                0 <= k < i ==> ((#[trigger] rows.refs@[k]).snapshot_id matches Some(id)
                    ==> has_snapshot(rows.snapshots@, id)),
        decreases rows.refs@.len() - i,
    {
        match &rows.refs[i].snapshot_id {
            Some(id) => {
                if !lists_snapshot(&rows.snapshots, id) {
                    assert(rows.refs@[i as int].snapshot_id == Some(*id));
                    return false;
                }
            },
            None => {},
        }
        i = i + 1;
    }
    true
}

pub open spec fn has_file(files: Seq<FileRecord>, id: Id) -> bool {
    exists|i: int| 0 <= i < files.len() && (#[trigger] files[i]).file_id == id
}

/// Whether a snapshot added a file.
pub open spec fn added(changes: Seq<ChangeRow>, snapshot: Id, file: Id) -> bool {
    exists|i: int|
        0 <= i < changes.len() && (#[trigger] changes[i]).snapshot_id == snapshot
            && changes[i].file_id == file && changes[i].change_kind@ == "add"@
}

pub open spec fn live_is_backed(rows: ImageRows) -> bool {
    forall|i: int|
        0 <= i < rows.live@.len() ==> has_file(rows.files@, (#[trigger] rows.live@[i]).file_id)
            && added(rows.changes@, rows.live@[i].added_snapshot_id, rows.live@[i].file_id)
}

fn lists_file(files: &Vec<FileRecord>, id: &Id) -> (found: bool)
    ensures
        found == has_file(files@, *id),
{
    let mut i: usize = 0;
    while i < files.len()
        invariant
            i <= files@.len(),
            forall|k: int| 0 <= k < i ==> (#[trigger] files@[k]).file_id != *id,
        decreases files@.len() - i,
    {
        if files[i].file_id == *id {
            return true;
        }
        i = i + 1;
    }
    false
}

fn was_added(changes: &Vec<ChangeRow>, snapshot: &Id, file: &Id) -> (found: bool)
    ensures
        found == added(changes@, *snapshot, *file),
{
    let mut i: usize = 0;
    while i < changes.len()
        invariant
            i <= changes@.len(),
            forall|k: int|
                0 <= k < i ==> !((#[trigger] changes@[k]).snapshot_id == *snapshot
                    && changes@[k].file_id == *file && changes@[k].change_kind@ == "add"@),
        decreases changes@.len() - i,
    {
        if changes[i].snapshot_id == *snapshot && changes[i].file_id == *file && reads(
            &changes[i].change_kind,
            "add",
        ) {
            return true;
        }
        i = i + 1;
    }
    false
}

fn is_live_backed(rows: &ImageRows) -> (ok: bool)
    ensures
        ok == live_is_backed(*rows),
{
    let mut i: usize = 0;
    while i < rows.live.len()
        invariant
            i <= rows.live@.len(),
            forall|k: int|
                0 <= k < i ==> has_file(rows.files@, (#[trigger] rows.live@[k]).file_id) && added(
                    rows.changes@,
                    rows.live@[k].added_snapshot_id,
                    rows.live@[k].file_id,
                ),
        decreases rows.live@.len() - i,
    {
        let live = &rows.live[i];
        if !lists_file(&rows.files, &live.file_id) || !was_added(
            &rows.changes,
            &live.added_snapshot_id,
            &live.file_id,
        ) {
            assert(rows.live@[i as int] == *live);
            return false;
        }
        i = i + 1;
    }
    true
}

pub open spec fn file_in_profile(f: FileRecord) -> bool {
    &&& f.file_kind@ == "data"@
    &&& f.file_format@ == "parquet"@
    &&& f.object_identity is None
    &&& f.partition_spec_id == 0
    &&& f.sort_order_id matches Some(order) ==> order == 0
    &&& f.content_sha256 is Some
}

/// Only appends of whole Parquet files.
pub open spec fn in_profile(rows: ImageRows) -> bool {
    &&& forall|i: int|
        0 <= i < rows.changes@.len() ==> (#[trigger] rows.changes@[i]).change_kind@ == "add"@
    &&& forall|i: int|
        0 <= i < rows.snapshots@.len() ==> (#[trigger] rows.snapshots@[i]).operation@ == "append"@
    &&& forall|i: int| 0 <= i < rows.files@.len() ==> file_in_profile(#[trigger] rows.files@[i])
}

fn is_in_profile(rows: &ImageRows) -> (ok: bool)
    ensures
        ok == in_profile(*rows),
{
    let mut i: usize = 0;
    while i < rows.changes.len()
        invariant
            i <= rows.changes@.len(),
            forall|k: int|
                0 <= k < i ==> (#[trigger] rows.changes@[k]).change_kind@ == "add"@,
        decreases rows.changes@.len() - i,
    {
        if !reads(&rows.changes[i].change_kind, "add") {
            return false;
        }
        i = i + 1;
    }
    let mut j: usize = 0;
    while j < rows.snapshots.len()
        invariant
            j <= rows.snapshots@.len(),
            forall|k: int|
                0 <= k < j ==> (#[trigger] rows.snapshots@[k]).operation@ == "append"@,
        decreases rows.snapshots@.len() - j,
    {
        if !reads(&rows.snapshots[j].operation, "append") {
            return false;
        }
        j = j + 1;
    }
    let mut n: usize = 0;
    while n < rows.files.len()
        invariant
            n <= rows.files@.len(),
            forall|k: int| 0 <= k < n ==> file_in_profile(#[trigger] rows.files@[k]),
        decreases rows.files@.len() - n,
    {
        let f = &rows.files[n];
        let ordered: bool = match f.sort_order_id {
            Some(order) => order != 0,
            None => false,
        };
        if !reads(&f.file_kind, "data") || !reads(&f.file_format, "parquet")
            || f.object_identity.is_some() || f.partition_spec_id != 0 || ordered
            || f.content_sha256.is_none() {
            assert(!file_in_profile(rows.files@[n as int]));
            return false;
        }
        n = n + 1;
    }
    true
}

/// A file that is live on a branch: the file, the snapshot that added it, and the
/// two sequence numbers it is listed with.
pub struct Membership {
    pub file_id: Id,
    pub snapshot_id: Id,
    pub data_sequence: i64,
    pub file_sequence: i64,
}

pub open spec fn snapshot_rows(snapshots: Seq<SnapshotRecord>) -> Seq<SnapshotRow> {
    Seq::new(snapshots.len(), |i: int| snapshots[i].row)
}

/// The sequence number of a snapshot, as the first row with its identifier gives
/// it.
pub open spec fn has_sequence(snapshots: Seq<SnapshotRecord>, id: Id, sequence: i64) -> bool {
    exists|i: int|
        0 <= i < snapshots.len() && (#[trigger] snapshots[i]).row.snapshot_id == id
            && snapshots[i].row.sequence_number == sequence
}

/// A file belongs to a lineage where one of its snapshots added it.
pub open spec fn belongs(rows: ImageRows, chain: Seq<Id>, m: Membership) -> bool {
    &&& chain.contains(m.snapshot_id)
    &&& added(rows.changes@, m.snapshot_id, m.file_id)
    &&& has_sequence(rows.snapshots@, m.snapshot_id, m.data_sequence)
    &&& m.file_sequence == m.data_sequence
}

/// A file is listed as live on a ref.
pub open spec fn listed(rows: ImageRows, name: Seq<char>, m: Membership) -> bool {
    exists|i: int|
        {
            &&& 0 <= i < rows.live@.len()
            &&& (#[trigger] rows.live@[i]).ref_name@ == name
            &&& rows.live@[i].file_id == m.file_id
            &&& rows.live@[i].added_snapshot_id == m.snapshot_id
            &&& rows.live@[i].data_sequence_number == m.data_sequence
            &&& rows.live@[i].file_sequence_number == m.file_sequence
        }
}

/// The files listed on a ref are exactly those of the lineage.
pub open spec fn membership_agrees(rows: ImageRows, name: Seq<char>, chain: Seq<Id>) -> bool {
    forall|m: Membership| #[trigger] listed(rows, name, m) <==> belongs(rows, chain, m)
}

pub open spec fn ref_check(rows: ImageRows, r: RefRecord) -> Result<(), ErrorView> {
    let tip = if r.ref_type@ == "branch"@ {
        r.snapshot_id
    } else {
        None
    };
    match lineage(
        Walk::History,
        snapshot_rows(rows.snapshots@),
        tip,
        Seq::empty(),
        u64::MAX as int,
    ) {
        Err(e) => Err(e),
        Ok(chain) => if membership_agrees(rows, r.name@, chain) {
            Ok(())
        } else {
            Err(corrupt_view("materialized membership differs from snapshot ancestry"@))
        },
    }
}

/// The refs in their order: the first whose membership is wrong decides.
pub open spec fn refs_check(rows: ImageRows, refs: Seq<RefRecord>) -> Result<(), ErrorView>
    decreases refs.len(),
{
    if refs.len() == 0 {
        Ok(())
    } else {
        match ref_check(rows, refs[0]) {
            Err(e) => Err(e),
            Ok(()) => refs_check(rows, refs.skip(1)),
        }
    }
}

/// The snapshots as far as lineages depend on them.
pub fn lineage_rows(snapshots: &Vec<SnapshotRecord>) -> (rows: Vec<SnapshotRow>)
    ensures
        rows@ == snapshot_rows(snapshots@),
{
    let mut rows: Vec<SnapshotRow> = Vec::new();
    let mut i: usize = 0;
    while i < snapshots.len()
        invariant
            i <= snapshots@.len(),
            rows@ == snapshot_rows(snapshots@).take(i as int),
        decreases snapshots@.len() - i,
    {
        rows.push(snapshots[i].row);
        i = i + 1;
        assert(rows@ =~= snapshot_rows(snapshots@).take(i as int));
    }
    assert(rows@ =~= snapshot_rows(snapshots@));
    rows
}

fn sequence_is(snapshots: &Vec<SnapshotRecord>, id: &Id, sequence: i64) -> (found: bool)
    ensures
        found == has_sequence(snapshots@, *id, sequence),
{
    let mut i: usize = 0;
    while i < snapshots.len()
        invariant
            i <= snapshots@.len(),
            forall|k: int|
                0 <= k < i ==> !((#[trigger] snapshots@[k]).row.snapshot_id == *id
                    && snapshots@[k].row.sequence_number == sequence),
        decreases snapshots@.len() - i,
    {
        if snapshots[i].row.snapshot_id == *id && snapshots[i].row.sequence_number == sequence {
            return true;
        }
        i = i + 1;
    }
    false
}

fn lists_live(rows: &ImageRows, name: &String, file: &Id, snapshot: &Id, sequence: i64) -> (found:
    bool)
    ensures
        found == listed(
            *rows,
            name@,
            Membership {
                file_id: *file,
                snapshot_id: *snapshot,
                data_sequence: sequence,
                file_sequence: sequence,
            },
        ),
{
    let mut i: usize = 0;
    while i < rows.live.len()
        invariant
            i <= rows.live@.len(),
            forall|k: int|
                0 <= k < i ==> !((#[trigger] rows.live@[k]).ref_name@ == name@
                    && rows.live@[k].file_id == *file && rows.live@[k].added_snapshot_id
                    == *snapshot && rows.live@[k].data_sequence_number == sequence
                    && rows.live@[k].file_sequence_number == sequence),
        decreases rows.live@.len() - i,
    {
        let live = &rows.live[i];
        if live.ref_name == *name && live.file_id == *file && live.added_snapshot_id == *snapshot
            && live.data_sequence_number == sequence && live.file_sequence_number == sequence {
            return true;
        }
        i = i + 1;
    }
    false
}

fn holds_chain(chain: &Vec<Id>, id: &Id) -> (found: bool)
    ensures
        found == chain@.contains(*id),
{
    crate::catalog::holds_id(chain, id)
}

/// Compares the listed files of a ref with those of a lineage, both ways.
fn membership_is(rows: &ImageRows, name: &String, chain: &Vec<Id>) -> (same: bool)
    ensures
        same == membership_agrees(*rows, name@, chain@),
{
    let mut i: usize = 0;
    while i < rows.live.len()
        invariant
            i <= rows.live@.len(),
            forall|k: int|
                0 <= k < i && (#[trigger] rows.live@[k]).ref_name@ == name@ ==> belongs(
                    *rows,
                    chain@,
                    live_member(rows.live@[k]),
                ),
        decreases rows.live@.len() - i,
    {
        let live = &rows.live[i];
        if live.ref_name == *name {
            if !holds_chain(chain, &live.added_snapshot_id) || !was_added(
                &rows.changes,
                &live.added_snapshot_id,
                &live.file_id,
            ) || !sequence_is(
                &rows.snapshots,
                &live.added_snapshot_id,
                live.data_sequence_number,
            ) || live.file_sequence_number != live.data_sequence_number {
                proof {
                    let m = live_member(*live);
                    assert(rows.live@[i as int] == *live);
                    assert(listed(*rows, name@, m));
                    assert(!belongs(*rows, chain@, m));
                }
                return false;
            }
            assert(belongs(*rows, chain@, live_member(*live)));
        }
        i = i + 1;
    }
    let mut j: usize = 0;
    while j < rows.changes.len()
        invariant
            j <= rows.changes@.len(),
            forall|k: int, n: int|
                0 <= k < j && 0 <= n < rows.snapshots@.len() && change_counts(
                    #[trigger] rows.changes@[k],
                    chain@,
                    #[trigger] rows.snapshots@[n],
                ) ==> listed(*rows, name@, change_member(rows.changes@[k], rows.snapshots@[n])),
        decreases rows.changes@.len() - j,
    {
        let change = &rows.changes[j];
        if reads(&change.change_kind, "add") && holds_chain(chain, &change.snapshot_id) {
            let mut n: usize = 0;
            while n < rows.snapshots.len()
                invariant
                    j < rows.changes@.len(),
                    *change == rows.changes@[j as int],
                    change.change_kind@ == "add"@,
                    chain@.contains(change.snapshot_id),
                    n <= rows.snapshots@.len(),
                    forall|k: int|
                        0 <= k < n && change_counts(
                            *change,
                            chain@,
                            #[trigger] rows.snapshots@[k],
                        ) ==> listed(*rows, name@, change_member(*change, rows.snapshots@[k])),
                decreases rows.snapshots@.len() - n,
            {
                let snapshot = &rows.snapshots[n];
                if snapshot.row.snapshot_id == change.snapshot_id && !lists_live(
                    rows,
                    name,
                    &change.file_id,
                    &change.snapshot_id,
                    snapshot.row.sequence_number,
                ) {
                    proof {
                        let m = change_member(*change, *snapshot);
                        assert(rows.snapshots@[n as int] == *snapshot);
                        assert(belongs(*rows, chain@, m));
                        assert(!listed(*rows, name@, m));
                    }
                    return false;
                }
                n = n + 1;
            }
        }
        j = j + 1;
    }
    proof {
        assert forall|m: Membership| #[trigger] listed(*rows, name@, m) <==> belongs(
            *rows,
            chain@,
            m,
        ) by {
            if listed(*rows, name@, m) {
                let k = choose|k: int|
                    {
                        &&& 0 <= k < rows.live@.len()
                        &&& (#[trigger] rows.live@[k]).ref_name@ == name@
                        &&& rows.live@[k].file_id == m.file_id
                        &&& rows.live@[k].added_snapshot_id == m.snapshot_id
                        &&& rows.live@[k].data_sequence_number == m.data_sequence
                        &&& rows.live@[k].file_sequence_number == m.file_sequence
                    };
                assert(live_member(rows.live@[k]) == m);
            }
            if belongs(*rows, chain@, m) {
                let k = choose|k: int|
                    0 <= k < rows.changes@.len() && (#[trigger] rows.changes@[k]).snapshot_id
                        == m.snapshot_id && rows.changes@[k].file_id == m.file_id
                        && rows.changes@[k].change_kind@ == "add"@;
                let n = choose|n: int|
                    0 <= n < rows.snapshots@.len() && (
                    #[trigger] rows.snapshots@[n]).row.snapshot_id == m.snapshot_id
                        && rows.snapshots@[n].row.sequence_number == m.data_sequence;
                assert(change_counts(rows.changes@[k], chain@, rows.snapshots@[n]));
                assert(change_member(rows.changes@[k], rows.snapshots@[n]) == m);
            }
        }
    }
    true
}

spec fn live_member(live: LiveRow) -> Membership {
    Membership {
        file_id: live.file_id,
        snapshot_id: live.added_snapshot_id,
        data_sequence: live.data_sequence_number,
        file_sequence: live.file_sequence_number,
    }
}

spec fn change_counts(change: ChangeRow, chain: Seq<Id>, snapshot: SnapshotRecord) -> bool {
    &&& change.change_kind@ == "add"@
    &&& chain.contains(change.snapshot_id)
    &&& snapshot.row.snapshot_id == change.snapshot_id
}

spec fn change_member(change: ChangeRow, snapshot: SnapshotRecord) -> Membership {
    Membership {
        file_id: change.file_id,
        snapshot_id: change.snapshot_id,
        data_sequence: snapshot.row.sequence_number,
        file_sequence: snapshot.row.sequence_number,
    }
}

/// Checks the files listed on every ref against its lineage.
fn check_refs(rows: &ImageRows) -> (r: Result<(), RuntimeError>)
    ensures
        match r {
            Ok(()) => refs_check(*rows, rows.refs@) is Ok,
            Err(e) => refs_check(*rows, rows.refs@) == Err::<(), ErrorView>(e@),
        },
{
    let lines = lineage_rows(&rows.snapshots);
    let refs = &rows.refs;
    assert(refs@.skip(0) =~= refs@);
    let mut i: usize = 0;
    while i < refs.len()
        invariant
            i <= refs@.len(),
            *refs == rows.refs,
            lines@ == snapshot_rows(rows.snapshots@),
            refs_check(*rows, refs@) == refs_check(*rows, refs@.skip(i as int)),
        decreases refs@.len() - i,
    {
        assert(refs@.skip(i as int).skip(1) =~= refs@.skip(i + 1));
        let r = &refs[i];
        let tip: Option<Id> = if reads(&r.ref_type, "branch") {
            r.snapshot_id
        } else {
            None
        };
        let chain = match ancestry(Walk::History, &lines, tip) {
            Err(e) => {
                return Err(e);
            },
            Ok(chain) => chain,
        };
        if !membership_is(rows, &r.name, &chain) {
            return Err(corrupt("materialized membership differs from snapshot ancestry"));
        }
        i = i + 1;
    }
    Ok(())
}

/// A number that fits a schema's identifiers.
pub open spec fn small(value: i64) -> bool {
    0 <= value <= u32::MAX
}

pub open spec fn protocol_view(problem: ProtocolError) -> ErrorView {
    ErrorView::Protocol(problem.code@, problem.message@)
}

pub fn protocol_error(problem: &ProtocolError) -> (e: RuntimeError)
    ensures
        e@ == protocol_view(*problem),
{
    RuntimeError::Protocol(
        ProtocolError { code: problem.code.clone(), message: problem.message.clone() },
    )
}

/// Whether one stored schema is sound.
pub open spec fn schema_check(schema: SchemaRecord) -> Result<(), ErrorView> {
    if !small(schema.schema_id) {
        Err(corrupt_view("invalid schema ID"@))
    } else if rows_check(schema.fields@) is Err {
        rows_check(schema.fields@)
    } else if schema.parent_schema_id matches Some(parent) && !small(parent) {
        Err(corrupt_view("invalid parent schema ID"@))
    } else {
        match schema.problem {
            Some(problem) => Err(protocol_view(problem)),
            None => Ok(()),
        }
    }
}

/// The schemas in their order: the first that is not sound decides.
pub open spec fn schemas_check(schemas: Seq<SchemaRecord>) -> Result<(), ErrorView>
    decreases schemas.len(),
{
    if schemas.len() == 0 {
        Ok(())
    } else {
        match schema_check(schemas[0]) {
            Err(e) => Err(e),
            Ok(()) => schemas_check(schemas.skip(1)),
        }
    }
}

/// Checks every stored schema.
pub fn validate_schemas(schemas: &Vec<SchemaRecord>) -> (r: Result<(), RuntimeError>)
    ensures
        match r {
            Ok(()) => schemas_check(schemas@) is Ok,
            Err(e) => schemas_check(schemas@) == Err::<(), ErrorView>(e@),
        },
{
    assert(schemas@.skip(0) =~= schemas@);
    let mut i: usize = 0;
    while i < schemas.len()
        invariant
            i <= schemas@.len(),
            schemas_check(schemas@) == schemas_check(schemas@.skip(i as int)),
        decreases schemas@.len() - i,
    {
        assert(schemas@.skip(i as int).skip(1) =~= schemas@.skip(i + 1));
        let schema = &schemas[i];
        if schema.schema_id < 0 || schema.schema_id > u32::MAX as i64 {
            return Err(corrupt("invalid schema ID"));
        }
        match validate_rows(&schema.fields) {
            Err(e) => {
                return Err(e);
            },
            Ok(()) => {},
        }
        match schema.parent_schema_id {
            Some(parent) => {
                if parent < 0 || parent > u32::MAX as i64 {
                    return Err(corrupt("invalid parent schema ID"));
                }
            },
            None => {},
        }
        match &schema.problem {
            Some(problem) => {
                return Err(protocol_error(problem));
            },
            None => {},
        }
        i = i + 1;
    }
    Ok(())
}

/// Whether the address and the partition values of a file are sound.
pub open spec fn partition_check(file: FileRecord, facts: PartitionFacts) -> Result<
    (),
    ErrorView,
> {
    if facts.uri_problem is Some {
        Err(protocol_view(facts.uri_problem->0))
    } else if facts.tuple_problem is Some {
        Err(protocol_view(facts.tuple_problem->0))
    } else if !small(file.partition_spec_id) {
        Err(corrupt_view("invalid partition spec ID"@))
    } else if file.partition_spec_id != 0 || !facts.tuple_empty {
        Err(corrupt_view("local/full-image profile requires empty partition tuples for spec 0"@))
    } else if file.partition_hash != facts.hash {
        Err(corrupt_view("partition hash mismatch"@))
    } else {
        Ok(())
    }
}

pub open spec fn partitions_check(files: Seq<FileRecord>, facts: Seq<PartitionFacts>) -> Result<
    (),
    ErrorView,
>
    decreases files.len(),
    when files.len() == facts.len()
{
    if files.len() == 0 {
        Ok(())
    } else {
        match partition_check(files[0], facts[0]) {
            Err(e) => Err(e),
            Ok(()) => partitions_check(files.skip(1), facts.skip(1)),
        }
    }
}

/// The kind of a field of a schema, as its row gives it.
pub open spec fn row_kind(fields: Seq<FieldRow>, id: i64) -> Option<KindView>
    decreases fields.len(),
{
    if fields.len() == 0 {
        None
    } else if fields[0].field.field_id == id {
        Some(kind_view(fields[0].field.field_type.kind))
    } else {
        row_kind(fields.skip(1), id)
    }
}

/// The kind of a field in the schema of a file.
pub open spec fn stored_kind(schemas: Seq<SchemaRecord>, schema: i64, field: i64) -> Option<
    KindView,
>
    decreases schemas.len(),
{
    if schemas.len() == 0 {
        None
    } else if schemas[0].schema_id == schema {
        row_kind(schemas[0].fields@, field)
    } else {
        stored_kind(schemas.skip(1), schema, field)
    }
}

/// The schema that a file was written with, if the file is known.
pub open spec fn file_schema(files: Seq<FileRecord>, id: Id) -> Option<i64>
    decreases files.len(),
{
    if files.len() == 0 {
        None
    } else if files[0].file_id == id {
        Some(files[0].schema_id)
    } else {
        file_schema(files.skip(1), id)
    }
}

pub open spec fn metric_kind(rows: ImageRows, metric: MetricRecord) -> Option<KindView> {
    match file_schema(rows.files@, metric.file_id) {
        None => None,
        Some(schema) => stored_kind(rows.schemas@, schema, metric.field_id),
    }
}

pub open spec fn stored_bound_check(bound: Option<BoundFacts>) -> Result<(), ErrorView> {
    match bound {
        None => Ok(()),
        Some(bound) => match bound.problem {
            Some(problem) => Err(protocol_view(problem)),
            None => if !bound.accepted || bound.null || bound.nan {
                Err(corrupt_view("invalid relational metric bound"@))
            } else {
                Ok(())
            },
        },
    }
}

/// Whether a stored bound can be decoded.
pub open spec fn decoding_check(bound: Option<BoundFacts>) -> Result<(), ErrorView> {
    match bound {
        Some(bound) => match bound.undecodable {
            Some(problem) => Err(protocol_view(problem)),
            None => Ok(()),
        },
        None => Ok(()),
    }
}

/// Whether a stored metric fits its file. Both bounds are decoded before either
/// is judged. One whose file is not stored is left to
/// the check of foreign keys.
pub open spec fn stored_metric_check(
    rows: ImageRows,
    metric: MetricRecord,
    facts: MetricFacts,
) -> Result<(), ErrorView> {
    match metric_kind(rows, metric) {
        None => if file_schema(rows.files@, metric.file_id) is None {
            Ok(())
        } else {
            Err(corrupt_view("metric field does not belong to the file schema"@))
        },
        Some(kind) => if (metric.null_count is Some && metric.value_count is Some
            && metric.null_count->0 > metric.value_count->0) || (metric.nan_count is Some && !(kind
            matches KindView::Primitive(_, float) && float)) {
            Err(corrupt_view("invalid relational metric counts"@))
        } else if decoding_check(facts.lower) is Err {
            decoding_check(facts.lower)
        } else if decoding_check(facts.upper) is Err {
            decoding_check(facts.upper)
        } else if stored_bound_check(facts.lower) is Err {
            stored_bound_check(facts.lower)
        } else if stored_bound_check(facts.upper) is Err {
            stored_bound_check(facts.upper)
        } else if facts.lower is Some && facts.upper is Some && facts.reversed {
            Err(corrupt_view("relational metric bounds are reversed"@))
        } else {
            Ok(())
        },
    }
}

pub open spec fn stored_metrics_check(
    rows: ImageRows,
    metrics: Seq<MetricRecord>,
    facts: Seq<MetricFacts>,
) -> Result<(), ErrorView>
    decreases metrics.len(),
    when metrics.len() == facts.len()
{
    if metrics.len() == 0 {
        Ok(())
    } else {
        match stored_metric_check(rows, metrics[0], facts[0]) {
            Err(e) => Err(e),
            Ok(()) => stored_metrics_check(rows, metrics.skip(1), facts.skip(1)),
        }
    }
}

/// The files in their order, then the metrics in theirs.
pub open spec fn descriptors_check(rows: ImageRows) -> Result<(), ErrorView> {
    match partitions_check(rows.files@, rows.partitions@) {
        Err(e) => Err(e),
        Ok(()) => stored_metrics_check(rows, rows.metrics@, rows.bounds@),
    }
}

/// Each file and each metric comes with what the codecs say of it.
pub open spec fn facts_complete(rows: ImageRows) -> bool {
    rows.files@.len() == rows.partitions@.len() && rows.metrics@.len() == rows.bounds@.len()
}

fn find_row_kind<'a>(fields: &'a Vec<FieldRow>, id: i64) -> (found: Option<
    &'a crate::schema::TypeKind,
>)
    ensures
        match found {
            Some(kind) => row_kind(fields@, id) == Some(kind_view(*kind)),
            None => row_kind(fields@, id) is None,
        },
{
    assert(fields@.skip(0) =~= fields@);
    let mut i: usize = 0;
    while i < fields.len()
        invariant
            i <= fields@.len(),
            row_kind(fields@, id) == row_kind(fields@.skip(i as int), id),
        decreases fields@.len() - i,
    {
        assert(fields@.skip(i as int).skip(1) =~= fields@.skip(i + 1));
        if fields[i].field.field_id as i64 == id {
            return Some(&fields[i].field.field_type.kind);
        }
        i = i + 1;
    }
    None
}

/// The kind of a field in a stored schema.
pub fn find_stored_kind<'a>(schemas: &'a Vec<SchemaRecord>, schema: i64, field: i64) -> (found: Option<
    &'a crate::schema::TypeKind,
>)
    ensures
        match found {
            Some(kind) => stored_kind(schemas@, schema, field) == Some(kind_view(*kind)),
            None => stored_kind(schemas@, schema, field) is None,
        },
{
    assert(schemas@.skip(0) =~= schemas@);
    let mut i: usize = 0;
    while i < schemas.len()
        invariant
            i <= schemas@.len(),
            stored_kind(schemas@, schema, field) == stored_kind(
                schemas@.skip(i as int),
                schema,
                field,
            ),
        decreases schemas@.len() - i,
    {
        assert(schemas@.skip(i as int).skip(1) =~= schemas@.skip(i + 1));
        if schemas[i].schema_id == schema {
            return find_row_kind(&schemas[i].fields, field);
        }
        i = i + 1;
    }
    None
}

/// The schema that a stored file was written with.
pub fn find_file_schema(files: &Vec<FileRecord>, id: &Id) -> (found: Option<i64>)
    ensures
        found == file_schema(files@, *id),
{
    assert(files@.skip(0) =~= files@);
    let mut i: usize = 0;
    while i < files.len()
        invariant
            i <= files@.len(),
            file_schema(files@, *id) == file_schema(files@.skip(i as int), *id),
        decreases files@.len() - i,
    {
        assert(files@.skip(i as int).skip(1) =~= files@.skip(i + 1));
        if files[i].file_id == *id {
            return Some(files[i].schema_id);
        }
        i = i + 1;
    }
    None
}

fn check_partition(file: &FileRecord, facts: &PartitionFacts) -> (r: Result<(), RuntimeError>)
    ensures
        match r {
            Ok(()) => partition_check(*file, *facts) is Ok,
            Err(e) => partition_check(*file, *facts) == Err::<(), ErrorView>(e@),
        },
{
    match &facts.uri_problem {
        Some(problem) => {
            return Err(protocol_error(problem));
        },
        None => {},
    }
    match &facts.tuple_problem {
        Some(problem) => {
            return Err(protocol_error(problem));
        },
        None => {},
    }
    if file.partition_spec_id < 0 || file.partition_spec_id > u32::MAX as i64 {
        return Err(corrupt("invalid partition spec ID"));
    }
    if file.partition_spec_id != 0 || !facts.tuple_empty {
        return Err(
            corrupt("local/full-image profile requires empty partition tuples for spec 0"),
        );
    }
    if file.partition_hash != facts.hash {
        return Err(corrupt("partition hash mismatch"));
    }
    Ok(())
}

fn check_stored_bound(bound: &Option<BoundFacts>) -> (r: Result<(), RuntimeError>)
    ensures
        match r {
            Ok(()) => stored_bound_check(*bound) is Ok,
            Err(e) => stored_bound_check(*bound) == Err::<(), ErrorView>(e@),
        },
{
    match bound {
        None => Ok(()),
        Some(bound) => match &bound.problem {
            Some(problem) => Err(protocol_error(problem)),
            None => if !bound.accepted || bound.null || bound.nan {
                Err(corrupt("invalid relational metric bound"))
            } else {
                Ok(())
            },
        },
    }
}

fn check_decoding(bound: &Option<BoundFacts>) -> (r: Result<(), RuntimeError>)
    ensures
        match r {
            Ok(()) => decoding_check(*bound) is Ok,
            Err(e) => decoding_check(*bound) == Err::<(), ErrorView>(e@),
        },
{
    match bound {
        None => Ok(()),
        Some(bound) => match &bound.undecodable {
            Some(problem) => Err(protocol_error(problem)),
            None => Ok(()),
        },
    }
}

fn check_stored_metric(rows: &ImageRows, metric: &MetricRecord, facts: &MetricFacts) -> (r: Result<
    (),
    RuntimeError,
>)
    ensures
        match r {
            Ok(()) => stored_metric_check(*rows, *metric, *facts) is Ok,
            Err(e) => stored_metric_check(*rows, *metric, *facts) == Err::<(), ErrorView>(e@),
        },
{
    let kind = match find_file_schema(&rows.files, &metric.file_id) {
        None => {
            return Ok(());
        },
        Some(schema) => find_stored_kind(&rows.schemas, schema, metric.field_id),
    };
    let kind = match kind {
        None => {
            return Err(corrupt("metric field does not belong to the file schema"));
        },
        Some(kind) => kind,
    };
    let more_nulls: bool = match (metric.null_count, metric.value_count) {
        (Some(nulls), Some(values)) => nulls > values,
        _ => false,
    };
    if more_nulls || (metric.nan_count.is_some() && !kind.is_float()) {
        return Err(corrupt("invalid relational metric counts"));
    }
    match check_decoding(&facts.lower) {
        Err(e) => {
            return Err(e);
        },
        Ok(()) => {},
    }
    match check_decoding(&facts.upper) {
        Err(e) => {
            return Err(e);
        },
        Ok(()) => {},
    }
    match check_stored_bound(&facts.lower) {
        Err(e) => {
            return Err(e);
        },
        Ok(()) => {},
    }
    match check_stored_bound(&facts.upper) {
        Err(e) => {
            return Err(e);
        },
        Ok(()) => {},
    }
    if facts.lower.is_some() && facts.upper.is_some() && facts.reversed {
        return Err(corrupt("relational metric bounds are reversed"));
    }
    Ok(())
}

/// Checks the stored descriptors of files and their metrics.
pub fn validate_file_descriptors(rows: &ImageRows) -> (r: Result<(), RuntimeError>)
    requires
        facts_complete(*rows),
    ensures
        match r {
            Ok(()) => descriptors_check(*rows) is Ok,
            Err(e) => descriptors_check(*rows) == Err::<(), ErrorView>(e@),
        },
{
    let files = &rows.files;
    let facts = &rows.partitions;
    assert(files@.skip(0) =~= files@);
    assert(facts@.skip(0) =~= facts@);
    let mut i: usize = 0;
    while i < files.len()
        invariant
            i <= files@.len(),
            *files == rows.files,
            *facts == rows.partitions,
            files@.len() == facts@.len(),
            partitions_check(files@, facts@) == partitions_check(
                files@.skip(i as int),
                facts@.skip(i as int),
            ),
        decreases files@.len() - i,
    {
        assert(files@.skip(i as int).skip(1) =~= files@.skip(i + 1));
        assert(facts@.skip(i as int).skip(1) =~= facts@.skip(i + 1));
        match check_partition(&files[i], &facts[i]) {
            Err(e) => {
                return Err(e);
            },
            Ok(()) => {},
        }
        i = i + 1;
    }
    let metrics = &rows.metrics;
    let bounds = &rows.bounds;
    assert(metrics@.skip(0) =~= metrics@);
    assert(bounds@.skip(0) =~= bounds@);
    let mut j: usize = 0;
    while j < metrics.len()
        invariant
            j <= metrics@.len(),
            *metrics == rows.metrics,
            *bounds == rows.bounds,
            metrics@.len() == bounds@.len(),
            partitions_check(rows.files@, rows.partitions@) is Ok,
            stored_metrics_check(*rows, metrics@, bounds@) == stored_metrics_check(
                *rows,
                metrics@.skip(j as int),
                bounds@.skip(j as int),
            ),
        decreases metrics@.len() - j,
    {
        assert(metrics@.skip(j as int).skip(1) =~= metrics@.skip(j + 1));
        assert(bounds@.skip(j as int).skip(1) =~= bounds@.skip(j + 1));
        match check_stored_metric(rows, &metrics[j], &bounds[j]) {
            Err(e) => {
                return Err(e);
            },
            Ok(()) => {},
        }
        j = j + 1;
    }
    Ok(())
}

/// The features that a side must support, in order of their names.
pub open spec fn required_features(features: Seq<FeatureRow>, side: Seq<char>) -> Seq<Seq<char>>
    decreases features.len(),
{
    if features.len() == 0 {
        Seq::empty()
    } else {
        let before = required_features(features.drop_last(), side);
        let row = features.last();
        if row.requirement@ == side || row.requirement@ == "both"@ {
            before.push(row.name@)
        } else {
            before
        }
    }
}

/// The texts begin a longer list, or are all of it.
spec fn begins(texts: Seq<Seq<char>>, all: Seq<Seq<char>>) -> bool {
    &&& texts.len() <= all.len()
    &&& forall|k: int| 0 <= k < texts.len() ==> #[trigger] texts[k] == all[k]
}

proof fn lemma_begins(texts: Seq<Seq<char>>, last: Seq<char>, all: Seq<Seq<char>>)
    ensures
        begins(texts.push(last), all) <==> begins(texts, all) && texts.len() < all.len()
            && all[texts.len() as int] == last,
{
    let longer = texts.push(last);
    let n = texts.len() as int;
    assert(longer[n] == last);
    if begins(longer, all) {
        assert forall|k: int| 0 <= k < n implies #[trigger] texts[k] == all[k] by {
            assert(longer[k] == texts[k]);
        }
    }
    if begins(texts, all) && n < all.len() && all[n] == last {
        assert forall|k: int| 0 <= k < longer.len() implies #[trigger] longer[k] == all[k] by {
            if k < n {
                assert(longer[k] == texts[k]);
            }
        }
    }
}

fn features_are(features: &Vec<FeatureRow>, side: &str, expected: &Vec<String>) -> (same: bool)
    ensures
        same == (required_features(features@, side@) == texts_view(expected@)),
{
    let ghost want = texts_view(expected@);
    let mut n: usize = 0;
    let mut i: usize = 0;
    let mut same: bool = true;
    assert(features@.take(0) =~= Seq::<FeatureRow>::empty());
    while i < features.len()
        invariant
            i <= features@.len(),
            n <= i,
            want == texts_view(expected@),
            want.len() == expected@.len(),
            n == required_features(features@.take(i as int), side@).len(),
            same == begins(required_features(features@.take(i as int), side@), want),
        decreases features@.len() - i,
    {
        let ghost before = required_features(features@.take(i as int), side@);
        assert(features@.take(i + 1).drop_last() =~= features@.take(i as int));
        let row = &features[i];
        if reads(&row.requirement, side) || reads(&row.requirement, "both") {
            proof {
                lemma_begins(before, row.name@, want);
            }
            if n >= expected.len() || row.name != expected[n] {
                same = false;
            }
            n = n + 1;
        }
        i = i + 1;
    }
    assert(features@.take(i as int) =~= features@);
    let ghost have = required_features(features@, side@);
    if same && n == expected.len() {
        assert(have =~= want);
        true
    } else {
        proof {
            if have == want {
                assert(begins(have, want));
            }
        }
        false
    }
}

pub open spec fn features_match(rows: ImageRows, expected: ExpectedImage) -> bool {
    &&& required_features(rows.features@, "reader"@) == texts_view(expected.reader_features@)
    &&& required_features(rows.features@, "writer"@) == texts_view(expected.writer_features@)
}

/// Whether an image is sound and is the one that the head names. The first rule
/// that it breaks decides.
pub open spec fn image_check(rows: ImageRows, expected: ExpectedImage) -> Result<(), ErrorView> {
    if rows.integrity@ != "ok"@ {
        Err(corrupt_view("integrity_check: "@ + rows.integrity@))
    } else if rows.foreign_key_errors != 0 {
        Err(corrupt_view("foreign_key_check failed"@))
    } else if rows.application_id != APPLICATION_ID {
        Err(corrupt_view("invalid SQLite application_id"@))
    } else if rows.user_version != USER_VERSION {
        Err(corrupt_view("invalid SQLite user_version"@))
    } else if rows.page_size != PAGE_SIZE {
        Err(corrupt_view("invalid SQLite page_size"@))
    } else if !meta_matches(rows.meta, expected) {
        Err(corrupt_view("otmp_meta does not match HEAD"@))
    } else if !defaults_exist(rows) {
        Err(corrupt_view("metadata defaults do not exist"@))
    } else if last_commits(rows.commits@, expected) != 1 {
        Err(corrupt_view("last commit row does not match commit object"@))
    } else if !paired(rows) {
        Err(corrupt_view("commit/idempotency pairing mismatch"@))
    } else if !contiguous(rows.commits@, expected.table_version) {
        Err(corrupt_view("relational commit history is not contiguous through HEAD"@))
    } else if previous_state(rows, expected.table_version) != expected.previous_semantic_state {
        Err(corrupt_view("previous semantic state does not match relational history"@))
    } else if history_check(rows, expected.table_version, rows.meta.last_sequence_number) is Err {
        history_check(rows, expected.table_version, rows.meta.last_sequence_number)
    } else if !refs_resolve(rows) {
        Err(corrupt_view("ref references missing snapshot"@))
    } else if !live_is_backed(rows) {
        Err(corrupt_view("live membership is inconsistent"@))
    } else if !in_profile(rows) {
        Err(
            corrupt_view(
                "relational state uses features outside the local/full-image profile append profile"@,
            ),
        )
    } else if refs_check(rows, rows.refs@) is Err {
        refs_check(rows, rows.refs@)
    } else if schemas_check(rows.schemas@) is Err {
        schemas_check(rows.schemas@)
    } else if descriptors_check(rows) is Err {
        descriptors_check(rows)
    } else if !features_match(rows, expected) {
        Err(corrupt_view("feature rows do not match feature set"@))
    } else {
        Ok(())
    }
}

/// Checks an image against the head that names it.
pub fn validate(rows: &ImageRows, expected: &ExpectedImage) -> (r: Result<(), RuntimeError>)
    requires
        facts_complete(*rows),
    ensures
        match r {
            Ok(()) => image_check(*rows, *expected) is Ok,
            Err(e) => image_check(*rows, *expected) == Err::<(), ErrorView>(e@),
        },
{
    if !reads(&rows.integrity, "ok") {
        return Err(RuntimeError::Corrupt(joined("integrity_check: ", rows.integrity.as_str())));
    }
    if rows.foreign_key_errors != 0 {
        return Err(corrupt("foreign_key_check failed"));
    }
    if rows.application_id != APPLICATION_ID {
        return Err(corrupt("invalid SQLite application_id"));
    }
    if rows.user_version != USER_VERSION {
        return Err(corrupt("invalid SQLite user_version"));
    }
    if rows.page_size != PAGE_SIZE as i64 {
        return Err(corrupt("invalid SQLite page_size"));
    }
    if !meta_is(&rows.meta, expected) {
        return Err(corrupt("otmp_meta does not match HEAD"));
    }
    if !lists_schema(&rows.schemas, rows.meta.current_schema_id) || !lists_number(
        &rows.partition_specs,
        rows.meta.default_partition_spec_id,
    ) || !lists_number(&rows.sort_orders, rows.meta.default_sort_order_id) {
        return Err(corrupt("metadata defaults do not exist"));
    }
    if count_last_commits(&rows.commits, expected) != 1 {
        return Err(corrupt("last commit row does not match commit object"));
    }
    if !is_paired(rows) {
        return Err(corrupt("commit/idempotency pairing mismatch"));
    }
    if !is_contiguous(&rows.commits, expected.table_version) {
        return Err(corrupt("relational commit history is not contiguous through HEAD"));
    }
    let previous: Option<Sha256> = if expected.table_version == 0 {
        None
    } else {
        find_state(&rows.commits, expected.table_version as i64 - 1)
    };
    if !same_hash(&previous, &expected.previous_semantic_state) {
        return Err(corrupt("previous semantic state does not match relational history"));
    }
    match validate_relational_history(
        rows,
        expected.table_version,
        rows.meta.last_sequence_number,
    ) {
        Err(e) => {
            return Err(e);
        },
        Ok(()) => {},
    }
    if !all_refs_resolve(rows) {
        return Err(corrupt("ref references missing snapshot"));
    }
    if !is_live_backed(rows) {
        return Err(corrupt("live membership is inconsistent"));
    }
    if !is_in_profile(rows) {
        return Err(
            corrupt(
                "relational state uses features outside the local/full-image profile append profile",
            ),
        );
    }
    match check_refs(rows) {
        Err(e) => {
            return Err(e);
        },
        Ok(()) => {},
    }
    match validate_schemas(&rows.schemas) {
        Err(e) => {
            return Err(e);
        },
        Ok(()) => {},
    }
    match validate_file_descriptors(rows) {
        Err(e) => {
            return Err(e);
        },
        Ok(()) => {},
    }
    if !features_are(&rows.features, "reader", &expected.reader_features) || !features_are(
        &rows.features,
        "writer",
        &expected.writer_features,
    ) {
        return Err(corrupt("feature rows do not match feature set"));
    }
    Ok(())
}

} // verus!

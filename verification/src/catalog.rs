//! The metadata rows that transactions read: refs, snapshots, properties and
//! schemas.
use crate::error::{corrupt, ErrorView, RuntimeError};
use crate::hash::Id;
use crate::schema::Schema;
use crate::value::{CanonicalValue, ValueView};
use vstd::prelude::*;

verus! {

#[derive(Clone, Copy, Debug, PartialEq, Eq, Structural)]
pub enum RefType {
    Branch,
    Tag,
}

impl RefType {
    pub open spec fn spec_text(self) -> Seq<char> {
        match self {
            RefType::Branch => "branch"@,
            RefType::Tag => "tag"@,
        }
    }

    pub fn as_str(self) -> (text: &'static str)
        ensures
            text@ == self.spec_text(),
    {
        match self {
            RefType::Branch => "branch",
            RefType::Tag => "tag",
        }
    }

    /// The type that a stored text names.
    pub fn from_text(text: &String) -> (r: Result<RefType, RuntimeError>)
        ensures
            match r {
                Ok(kind) => text@ == kind.spec_text(),
                Err(e) => {
                    &&& text@ != RefType::Branch.spec_text()
                    &&& text@ != RefType::Tag.spec_text()
                    &&& e@ == ErrorView::Corrupt("invalid ref type"@)
                },
            },
    {
        if crate::text::reads(text, "branch") {
            Ok(RefType::Branch)
        } else if crate::text::reads(text, "tag") {
            Ok(RefType::Tag)
        } else {
            Err(corrupt("invalid ref type"))
        }
    }
}

#[derive(Debug)]
pub struct RefRow {
    pub name: String,
    pub ref_type: RefType,
    pub snapshot_id: Option<Id>,
}

#[derive(Debug)]
pub struct PropertyRow {
    pub key: String,
    pub value: CanonicalValue,
}

#[derive(Debug, Clone, Copy)]
pub struct SnapshotRow {
    pub snapshot_id: Id,
    pub parent_snapshot_id: Option<Id>,
    pub sequence_number: i64,
}

/// The rows of one table version that decide a transaction.
#[derive(Debug)]
pub struct Catalog {
    pub properties: Vec<PropertyRow>,
    pub refs: Vec<RefRow>,
    pub snapshots: Vec<SnapshotRow>,
    pub schema_ids: Vec<u32>,
    pub field_ids: Vec<u32>,
    pub current_schema: Schema,
    pub default_partition_spec_id: u32,
    pub default_sort_order_id: u32,
}

/// The ref by that name, if there is one.
pub open spec fn ref_of(refs: Seq<RefRow>, name: Seq<char>) -> Option<(RefType, Option<Id>)>
    decreases refs.len(),
{
    if refs.len() == 0 {
        None
    } else if refs[0].name@ == name {
        Some((refs[0].ref_type, refs[0].snapshot_id))
    } else {
        ref_of(refs.skip(1), name)
    }
}

pub fn ref_row(refs: &Vec<RefRow>, name: &String) -> (found: Option<(RefType, Option<Id>)>)
    ensures
        found == ref_of(refs@, name@),
{
    assert(refs@.skip(0) =~= refs@);
    let mut i: usize = 0;
    while i < refs.len()
        invariant
            i <= refs@.len(),
            ref_of(refs@, name@) == ref_of(refs@.skip(i as int), name@),
        decreases refs@.len() - i,
    {
        assert(refs@.skip(i as int).skip(1) =~= refs@.skip(i + 1));
        if refs[i].name == *name {
            return Some((refs[i].ref_type, refs[i].snapshot_id));
        }
        i = i + 1;
    }
    None
}

/// The value of a property, if it is set.
pub open spec fn property_of(properties: Seq<PropertyRow>, key: Seq<char>) -> Option<ValueView>
    decreases properties.len(),
{
    if properties.len() == 0 {
        None
    } else if properties[0].key@ == key {
        Some(properties[0].value@)
    } else {
        property_of(properties.skip(1), key)
    }
}

pub fn property_row<'a>(properties: &'a Vec<PropertyRow>, key: &String) -> (found: Option<
    &'a CanonicalValue,
>)
    ensures
        match found {
            Some(value) => property_of(properties@, key@) == Some(value@),
            None => property_of(properties@, key@) is None,
        },
{
    assert(properties@.skip(0) =~= properties@);
    let mut i: usize = 0;
    while i < properties.len()
        invariant
            i <= properties@.len(),
            property_of(properties@, key@) == property_of(properties@.skip(i as int), key@),
        decreases properties@.len() - i,
    {
        assert(properties@.skip(i as int).skip(1) =~= properties@.skip(i + 1));
        if properties[i].key == *key {
            return Some(&properties[i].value);
        }
        i = i + 1;
    }
    None
}

/// The snapshot with that identifier, if there is one.
pub open spec fn snapshot_of(rows: Seq<SnapshotRow>, id: Id) -> Option<SnapshotRow>
    decreases rows.len(),
{
    if rows.len() == 0 {
        None
    } else if rows[0].snapshot_id == id {
        Some(rows[0])
    } else {
        snapshot_of(rows.skip(1), id)
    }
}

pub fn snapshot_row(rows: &Vec<SnapshotRow>, id: &Id) -> (found: Option<SnapshotRow>)
    ensures
        found == snapshot_of(rows@, *id),
{
    assert(rows@.skip(0) =~= rows@);
    let mut i: usize = 0;
    while i < rows.len()
        invariant
            i <= rows@.len(),
            snapshot_of(rows@, *id) == snapshot_of(rows@.skip(i as int), *id),
        decreases rows@.len() - i,
    {
        assert(rows@.skip(i as int).skip(1) =~= rows@.skip(i + 1));
        if rows[i].snapshot_id == *id {
            return Some(rows[i]);
        }
        i = i + 1;
    }
    None
}

pub fn holds_number(numbers: &Vec<u32>, n: u32) -> (found: bool)
    ensures
        found == numbers@.contains(n),
{
    let mut i: usize = 0;
    while i < numbers.len()
        invariant
            i <= numbers@.len(),
            forall|k: int| 0 <= k < i ==> #[trigger] numbers@[k] != n,
        decreases numbers@.len() - i,
    {
        if numbers[i] == n {
            return true;
        }
        i = i + 1;
    }
    false
}

pub fn holds_id(ids: &Vec<Id>, id: &Id) -> (found: bool)
    ensures
        found == ids@.contains(*id),
{
    let mut i: usize = 0;
    while i < ids.len()
        invariant
            i <= ids@.len(),
            forall|k: int| 0 <= k < i ==> #[trigger] ids@[k] != *id,
        decreases ids@.len() - i,
    {
        if ids[i] == *id {
            return true;
        }
        i = i + 1;
    }
    false
}

/// Who walks a lineage: one that writes a branch, or one that reads history.
/// They report the same damage differently.
#[derive(Clone, Copy, Debug, PartialEq, Eq, Structural)]
pub enum Walk {
    Branch,
    History,
}

pub open spec fn missing_snapshot(walk: Walk) -> ErrorView {
    match walk {
        Walk::Branch => ErrorView::Sqlite("Query returned no rows"@),
        Walk::History => ErrorView::Corrupt("dangling snapshot ancestry"@),
    }
}

/// The snapshots from `tip` to its root, after those already `seen`. Each
/// sequence number is below the one before it.
pub open spec fn lineage(
    walk: Walk,
    rows: Seq<SnapshotRow>,
    tip: Option<Id>,
    seen: Seq<Id>,
    last: int,
) -> Result<Seq<Id>, ErrorView>
    decreases last,
{
    match tip {
        None => Ok(seen),
        Some(id) => if seen.contains(id) {
            Err(ErrorView::Corrupt("snapshot ancestry cycle"@))
        } else {
            match snapshot_of(rows, id) {
                None => Err(missing_snapshot(walk)),
                Some(row) => if walk is History && row.sequence_number < 0 {
                    Err(ErrorView::Corrupt("negative sequence"@))
                } else if (walk is Branch && row.sequence_number <= 0) || row.sequence_number
                    >= last {
                    Err(ErrorView::Corrupt("nondecreasing snapshot ancestry"@))
                } else {
                    lineage(
                        walk,
                        rows,
                        row.parent_snapshot_id,
                        seen.push(id),
                        row.sequence_number as int,
                    )
                },
            }
        },
    }
}

/// The snapshots from a tip to its root.
pub fn ancestry(walk: Walk, rows: &Vec<SnapshotRow>, tip: Option<Id>) -> (r: Result<
    Vec<Id>,
    RuntimeError,
>)
    ensures
        match r {
            Ok(chain) => lineage(walk, rows@, tip, Seq::empty(), u64::MAX as int) == Ok::<
                Seq<Id>,
                ErrorView,
            >(chain@),
            Err(e) => lineage(walk, rows@, tip, Seq::empty(), u64::MAX as int) == Err::<
                Seq<Id>,
                ErrorView,
            >(e@),
        },
{
    let ghost plan = lineage(walk, rows@, tip, Seq::empty(), u64::MAX as int);
    let mut chain: Vec<Id> = Vec::new();
    let mut last: u64 = u64::MAX;
    let mut next: Option<Id> = tip;
    assert(chain@ =~= Seq::<Id>::empty());
    loop
        invariant
            plan == lineage(walk, rows@, tip, Seq::empty(), u64::MAX as int),
            plan == lineage(walk, rows@, next, chain@, last as int),
        decreases last,
    {
        let id: Id = match next {
            None => {
                return Ok(chain);
            },
            Some(id) => id,
        };
        if holds_id(&chain, &id) {
            return Err(corrupt("snapshot ancestry cycle"));
        }
        match snapshot_row(rows, &id) {
            None => {
                return Err(
                    match walk {
                        Walk::Branch => RuntimeError::Sqlite("Query returned no rows".to_owned()),
                        Walk::History => corrupt("dangling snapshot ancestry"),
                    },
                );
            },
            Some(row) => {
                if walk == Walk::History && row.sequence_number < 0 {
                    return Err(corrupt("negative sequence"));
                }
                if (walk == Walk::Branch && row.sequence_number <= 0) || row.sequence_number as u64 >= last {
                    return Err(corrupt("nondecreasing snapshot ancestry"));
                }
                last = row.sequence_number as u64;
                chain.push(id);
                next = row.parent_snapshot_id;
            },
        }
    }
}

/// A lineage lists each snapshot once, with falling sequence numbers, each the
/// parent of the one before it, and its last has no parent.
pub open spec fn is_lineage(rows: Seq<SnapshotRow>, chain: Seq<Id>, tip: Option<Id>) -> bool {
    &&& chain.len() == 0 <==> tip is None
    &&& chain.len() > 0 ==> Some(chain[0]) == tip
    &&& forall|i: int| 0 <= i < chain.len() ==> snapshot_of(rows, #[trigger] chain[i]) is Some
    &&& forall|i: int|
        0 <= i < chain.len() ==> snapshot_of(rows, #[trigger] chain[i])->0.parent_snapshot_id == (
        if i + 1 < chain.len() {
            Some(chain[i + 1])
        } else {
            None
        })
    &&& forall|i: int, j: int|
        #![trigger chain[i], chain[j]]
        0 <= i < j < chain.len() ==> chain[i] != chain[j] && snapshot_of(
            rows,
            chain[i],
        )->0.sequence_number > snapshot_of(rows, chain[j])->0.sequence_number
}

/// What `ancestry` returns is the lineage of the tip.
pub proof fn lemma_lineage(walk: Walk, rows: Seq<SnapshotRow>, tip: Option<Id>)
    ensures
        lineage(walk, rows, tip, Seq::empty(), u64::MAX as int) matches Ok(chain) ==> is_lineage(
            rows,
            chain,
            tip,
        ),
{
    let none: Seq<Id> = Seq::empty();
    lemma_lineage_from(walk, rows, tip, none, u64::MAX as int);
    if let Ok(chain) = lineage(walk, rows, tip, none, u64::MAX as int) {
        assert(chain.skip(0) =~= chain);
    }
}

#[verifier::spinoff_prover]
#[verifier::rlimit(60)]
proof fn lemma_lineage_from(
    walk: Walk,
    rows: Seq<SnapshotRow>,
    tip: Option<Id>,
    seen: Seq<Id>,
    last: int,
)
    ensures
        lineage(walk, rows, tip, seen, last) matches Ok(chain) ==> {
            &&& seen.len() <= chain.len()
            &&& chain.take(seen.len() as int) == seen
            &&& is_lineage(rows, chain.skip(seen.len() as int), tip)
            &&& forall|i: int|
                seen.len() <= i < chain.len() ==> snapshot_of(
                    rows,
                    #[trigger] chain[i],
                )->0.sequence_number < last && !seen.contains(chain[i])
        },
    decreases last,
{
    if let Ok(chain) = lineage(walk, rows, tip, seen, last) {
        match tip {
            None => {
                assert(chain.take(seen.len() as int) =~= seen);
            },
            Some(id) => {
                let row = snapshot_of(rows, id)->0;
                lemma_lineage_from(
                    walk,
                    rows,
                    row.parent_snapshot_id,
                    seen.push(id),
                    row.sequence_number as int,
                );
                let n = seen.len() as int;
                let tail = chain.skip(n);
                let rest = chain.skip(n + 1);
                assert(chain.take(n) =~= chain.take(n + 1).take(n));
                assert(seen.push(id).take(n) =~= seen);
                assert(chain.take(n + 1)[n] == id);
                assert(tail[0] == id);
                assert forall|i: int| 0 < i < tail.len() implies tail[i] == rest[i - 1] by {}
                assert forall|i: int| n <= i < chain.len() implies snapshot_of(
                    rows,
                    #[trigger] chain[i],
                )->0.sequence_number < last && !seen.contains(chain[i]) by {
                    if i > n {
                        assert(!seen.push(id).contains(chain[i]));
                        if seen.contains(chain[i]) {
                            let k = choose|k: int| 0 <= k < seen.len() && seen[k] == chain[i];
                            assert(seen.push(id)[k] == chain[i]);
                        }
                    }
                }
                assert forall|i: int, j: int|
                    #![trigger tail[i], tail[j]]
                    0 <= i < j < tail.len() implies tail[i] != tail[j] && snapshot_of(
                    rows,
                    tail[i],
                )->0.sequence_number > snapshot_of(rows, tail[j])->0.sequence_number by {
                    assert(tail[j] == rest[j - 1]);
                    assert(tail[j] == chain[n + j]);
                    if i > 0 {
                        assert(tail[i] == rest[i - 1]);
                    } else {
                        assert(!seen.push(id).contains(chain[n + j]));
                        assert(seen.push(id)[n] == id);
                    }
                }
                assert forall|i: int| 0 <= i < tail.len() implies snapshot_of(
                    rows,
                    #[trigger] tail[i],
                ) is Some && snapshot_of(rows, tail[i])->0.parent_snapshot_id == (if i + 1
                    < tail.len() {
                    Some(tail[i + 1])
                } else {
                    None
                }) by {
                    if i > 0 {
                        assert(tail[i] == rest[i - 1]);
                        if i + 1 < tail.len() {
                            assert(tail[i + 1] == rest[i]);
                        }
                    } else if tail.len() > 1 {
                        assert(tail[1] == rest[0]);
                    }
                }
            },
        }
    }
}

} // verus!

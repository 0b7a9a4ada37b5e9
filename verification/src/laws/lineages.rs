//! The snapshots behind a snapshot: which walks through the rows succeed, and what
//! they find.
use crate::catalog::{ancestry, lineage, snapshot_of, SnapshotRow, Walk};
use crate::error::{ErrorView, RuntimeError};
use crate::hash::Id;
use vstd::prelude::*;

verus! {

/// The row of a snapshot: the first with its identifier.
pub open spec fn is_row_of(rows: Seq<SnapshotRow>, i: int, id: Id) -> bool {
    &&& 0 <= i < rows.len()
    &&& rows[i].snapshot_id == id
    &&& forall|j: int| 0 <= j < i ==> (#[trigger] rows[j]).snapshot_id != id
}

/// The chain leads from the tip to a snapshot without a parent, along the rows at
/// the given places: each is the parent of the one before it, and sequence numbers
/// fall, none of them below the least.
pub open spec fn leads_back(
    rows: Seq<SnapshotRow>,
    tip: Option<Id>,
    chain: Seq<Id>,
    places: Seq<int>,
    least: int,
) -> bool {
    &&& places.len() == chain.len()
    &&& tip == (if chain.len() == 0 {
        None
    } else {
        Some(chain[0])
    })
    &&& forall|k: int| 0 <= k < chain.len() ==> is_row_of(rows, #[trigger] places[k], chain[k])
    &&& forall|k: int|
        0 <= k < chain.len() ==> rows[#[trigger] places[k]].sequence_number >= least
    &&& forall|k: int|
        0 <= k < chain.len() ==> rows[#[trigger] places[k]].parent_snapshot_id == (if k + 1
            < chain.len() {
            Some(chain[k + 1])
        } else {
            None
        })
    &&& forall|k: int, l: int|
        0 <= k < l < chain.len() ==> rows[#[trigger] places[k]].sequence_number
            > rows[#[trigger] places[l]].sequence_number
}

/// The least sequence number that a walk takes: a branch holds snapshots from the
/// first on.
pub open spec fn least_of(walk: Walk) -> int {
    match walk {
        Walk::Branch => 1,
        Walk::History => 0,
    }
}

pub proof fn lemma_row_found(rows: Seq<SnapshotRow>, id: Id) -> (i: int)
    ensures
        match snapshot_of(rows, id) {
            Some(row) => is_row_of(rows, i, id) && rows[i] == row,
            None => forall|j: int| 0 <= j < rows.len() ==> (#[trigger] rows[j]).snapshot_id != id,
        },
    decreases rows.len(),
{
    if rows.len() == 0 {
        0
    } else if rows[0].snapshot_id == id {
        0
    } else {
        let rest = rows.skip(1);
        let i = lemma_row_found(rest, id);
        if snapshot_of(rest, id) is None {
            assert forall|j: int| 0 <= j < rows.len() implies (#[trigger] rows[j]).snapshot_id
                != id by {
                if j > 0 {
                    assert(rest[j - 1] == rows[j]);
                }
            }
        } else {
            assert(rest[i] == rows[i + 1]);
            assert forall|j: int| 0 <= j < i + 1 implies (#[trigger] rows[j]).snapshot_id
                != id by {
                if j > 0 {
                    assert(rest[j - 1] == rows[j]);
                }
            }
        }
        i + 1
    }
}

pub proof fn lemma_row_is_found(rows: Seq<SnapshotRow>, i: int, id: Id)
    requires
        is_row_of(rows, i, id),
    ensures
        snapshot_of(rows, id) == Some(rows[i]),
{
    let k = lemma_row_found(rows, id);
    if snapshot_of(rows, id) is None {
        assert(rows[i].snapshot_id != id);
    } else if k < i {
        assert(rows[k].snapshot_id != id);
    } else if i < k {
        assert(rows[i].snapshot_id != id);
    }
}

proof fn lemma_found_from(
    walk: Walk,
    rows: Seq<SnapshotRow>,
    tip: Option<Id>,
    seen: Seq<Id>,
    last: int,
) -> (places: Seq<int>)
    requires
        lineage(walk, rows, tip, seen, last) is Ok,
    ensures
        ({
            let chain = lineage(walk, rows, tip, seen, last)->Ok_0;
            &&& chain.len() >= seen.len()
            &&& chain.take(seen.len() as int) == seen
            &&& leads_back(rows, tip, chain.skip(seen.len() as int), places, least_of(walk))
            &&& forall|k: int|
                0 <= k < places.len() ==> rows[#[trigger] places[k]].sequence_number < last
        }),
    decreases last,
{
    let chain = lineage(walk, rows, tip, seen, last)->Ok_0;
    let n = seen.len() as int;
    match tip {
        None => {
            assert(chain.take(n) =~= seen);
            Seq::empty()
        },
        Some(id) => {
            let i = lemma_row_found(rows, id);
            let row = rows[i];
            let rest = lemma_found_from(
                walk,
                rows,
                row.parent_snapshot_id,
                seen.push(id),
                row.sequence_number as int,
            );
            let places = seq![i] + rest;
            let tail = chain.skip(n);
            let after = chain.skip(n + 1);
            assert(chain.take(n + 1) == seen.push(id));
            assert(chain.take(n) =~= chain.take(n + 1).take(n));
            assert(seen.push(id).take(n) =~= seen);
            assert(chain.take(n + 1)[n] == id);
            assert(tail[0] == id);
            assert forall|k: int| 0 < k < tail.len() implies tail[k] == after[k - 1] by {}
            assert forall|k: int| 0 < k < places.len() implies places[k] == rest[k - 1] by {}
            assert forall|k: int| 0 <= k < tail.len() implies is_row_of(
                rows,
                #[trigger] places[k],
                tail[k],
            ) by {
                if k > 0 {
                    assert(is_row_of(rows, rest[k - 1], after[k - 1]));
                }
            }
            assert forall|k: int| 0 <= k < tail.len() implies rows[#[trigger] places[k]].sequence_number
                >= least_of(walk) && rows[places[k]].sequence_number < last by {
                if k > 0 {
                    assert(rows[rest[k - 1]].sequence_number >= least_of(walk));
                }
            }
            assert forall|k: int| 0 <= k < tail.len() implies rows[#[trigger] places[k]].parent_snapshot_id
                == (if k + 1 < tail.len() {
                Some(tail[k + 1])
            } else {
                None
            }) by {
                if k > 0 {
                    assert(rows[rest[k - 1]].parent_snapshot_id == (if k < after.len() {
                        Some(after[k])
                    } else {
                        None
                    }));
                }
            }
            assert forall|k: int, l: int| 0 <= k < l < tail.len() implies rows[#[trigger] places[k]].sequence_number
                > rows[#[trigger] places[l]].sequence_number by {
                assert(places[l] == rest[l - 1]);
                if k > 0 {
                    assert(rows[rest[k - 1]].sequence_number > rows[rest[l - 1]].sequence_number);
                }
            }
            places
        },
    }
}

proof fn lemma_reached(
    walk: Walk,
    rows: Seq<SnapshotRow>,
    tip: Option<Id>,
    chain: Seq<Id>,
    places: Seq<int>,
    k: int,
    last: int,
)
    requires
        leads_back(rows, tip, chain, places, least_of(walk)),
        0 <= k <= chain.len(),
        k < chain.len() ==> rows[places[k]].sequence_number < last,
    ensures
        lineage(
            walk,
            rows,
            if k < chain.len() {
                Some(chain[k])
            } else {
                None
            },
            chain.take(k),
            last,
        ) == Ok::<Seq<Id>, ErrorView>(chain),
    decreases chain.len() - k,
{
    if k == chain.len() {
        assert(chain.take(k) =~= chain);
    } else {
        let id = chain[k];
        assert(is_row_of(rows, places[k], id));
        lemma_row_is_found(rows, places[k], id);
        let row = rows[places[k]];
        if chain.take(k).contains(id) {
            let j = choose|j: int| 0 <= j < k && chain.take(k)[j] == id;
            assert(is_row_of(rows, places[j], chain[j]));
            assert(rows[places[j]].sequence_number > rows[places[k]].sequence_number);
            if places[j] < places[k] {
                assert(rows[places[j]].snapshot_id != id);
            } else if places[k] < places[j] {
                assert(rows[places[k]].snapshot_id != id);
            }
        }
        assert(row.sequence_number >= least_of(walk));
        if k + 1 < chain.len() {
            assert(rows[places[k]].sequence_number > rows[places[k + 1]].sequence_number);
        }
        lemma_reached(walk, rows, tip, chain, places, k + 1, row.sequence_number as int);
        assert(chain.take(k + 1) =~= chain.take(k).push(id));
        assert(row.parent_snapshot_id == (if k + 1 < chain.len() {
            Some(chain[k + 1])
        } else {
            None
        }));
    }
}

/// A walk from a tip gives exactly the chain that leads back from it: where one
/// does, the walk succeeds with it, and a walk that succeeds has found one.
pub proof fn lemma_walk_finds_the_lineage(walk: Walk, rows: Seq<SnapshotRow>, tip: Option<Id>)
    ensures
        forall|chain: Seq<Id>, places: Seq<int>| #[trigger]
            leads_back(rows, tip, chain, places, least_of(walk)) ==> lineage(
                walk,
                rows,
                tip,
                Seq::empty(),
                u64::MAX as int,
            ) == Ok::<Seq<Id>, ErrorView>(chain),
        lineage(walk, rows, tip, Seq::empty(), u64::MAX as int) matches Ok(chain) ==> exists|
            places: Seq<int>,
        | #[trigger]
            leads_back(rows, tip, chain, places, least_of(walk)),
{
    let none: Seq<Id> = Seq::empty();
    assert forall|chain: Seq<Id>, places: Seq<int>| #[trigger]
        leads_back(rows, tip, chain, places, least_of(walk)) implies lineage(
        walk,
        rows,
        tip,
        none,
        u64::MAX as int,
    ) == Ok::<Seq<Id>, ErrorView>(chain) by {
        lemma_reached(walk, rows, tip, chain, places, 0, u64::MAX as int);
        assert(chain.take(0) =~= none);
    }
    if let Ok(chain) = lineage(walk, rows, tip, none, u64::MAX as int) {
        let places = lemma_found_from(walk, rows, tip, none, u64::MAX as int);
        assert(chain.skip(0) =~= chain);
        assert(leads_back(rows, tip, chain, places, least_of(walk)));
    }
}

/// The ancestry of a tip is the chain of snapshots that leads back from it, and is
/// given exactly where there is one.
pub proof fn lemma_ancestry_is_the_lineage(
    walk: Walk,
    rows: Vec<SnapshotRow>,
    tip: Option<Id>,
    r: Result<Vec<Id>, RuntimeError>,
)
    requires
        call_ensures(ancestry, (walk, &rows, tip), r),
    ensures
        forall|chain: Seq<Id>, places: Seq<int>| #[trigger]
            leads_back(rows@, tip, chain, places, least_of(walk)) ==> (r matches Ok(found)
                && found@ == chain),
        r matches Ok(found) ==> exists|places: Seq<int>| #[trigger]
            leads_back(rows@, tip, found@, places, least_of(walk)),
{
    lemma_walk_finds_the_lineage(walk, rows@, tip);
}

} // verus!

//! A cache of metadata ranges and pages under one budget. Entries leave in the
//! order in which they came. What is still in use after that counts on.
use crate::error::{corrupt, exhausted, ErrorView, RuntimeError};
use crate::hash::Sha256;
use crate::page_map::PageObjectReference;
use crate::storage::{ObjectMetadata, ObjectVersion};
use crate::text::{append_decimal, byte_length, decimal, utf8_length};
use std::ops::Range;
use vstd::prelude::*;
use vstd::string::*;

verus! {

/// What an address is known to hold.
#[derive(Debug)]
pub struct Identity {
    pub uri: String,
    pub hash: Sha256,
    pub length: u64,
    pub version: Option<ObjectVersion>,
}

pub struct IdentityView {
    pub uri: Seq<char>,
    pub hash: Sha256,
    pub length: u64,
    pub version: Option<Seq<char>>,
}

impl View for Identity {
    type V = IdentityView;

    open spec fn view(&self) -> IdentityView {
        IdentityView {
            uri: self.uri@,
            hash: self.hash,
            length: self.length,
            version: match self.version {
                None => None,
                Some(version) => Some(version@),
            },
        }
    }
}

fn same_identity(a: &Identity, b: &Identity) -> (same: bool)
    ensures
        same == (a@ == b@),
{
    let version: bool = match (&a.version, &b.version) {
        (None, None) => true,
        (Some(x), Some(y)) => *x == *y,
        _ => false,
    };
    a.uri == b.uri && a.hash == b.hash && a.length == b.length && version
}

/// A page of a generation's image, or of the checkpoint under it.
#[derive(Clone, Copy, Debug)]
pub struct PageKey {
    pub generation: Sha256,
    pub checkpoint: bool,
    pub page: u64,
}

/// Room in the budget that no entry takes yet.
#[derive(Debug)]
pub struct Reservation {
    amount: usize,
}

impl View for Reservation {
    type V = nat;

    closed spec fn view(&self) -> nat {
        self.amount as nat
    }
}

/// A claim on cached bytes that outlives their entry.
#[derive(Debug)]
pub struct Held {
    id: u64,
}

impl View for Held {
    type V = u64;

    closed spec fn view(&self) -> u64 {
        self.id
    }
}

#[derive(Debug)]
struct Block {
    id: u64,
    amount: usize,
    bytes: Vec<u8>,
    handles: u64,
}

/// Bytes, what they take of the budget, and how often they are claimed.
pub struct BlockView {
    pub id: u64,
    pub amount: nat,
    pub bytes: Seq<u8>,
    pub handles: nat,
}

impl View for Block {
    type V = BlockView;

    closed spec fn view(&self) -> BlockView {
        BlockView {
            id: self.id,
            amount: self.amount as nat,
            bytes: self.bytes@,
            handles: self.handles as nat,
        }
    }
}

#[derive(Debug)]
enum Key {
    ObjectRange { identity: Identity, start: u64, end: u64 },
    AuthenticatedPage(PageKey),
}

pub enum KeyView {
    ObjectRange { identity: IdentityView, start: u64, end: u64 },
    AuthenticatedPage(PageKey),
}

impl View for Key {
    type V = KeyView;

    closed spec fn view(&self) -> KeyView {
        match *self {
            Key::ObjectRange { identity, start, end } => KeyView::ObjectRange {
                identity: identity@,
                start,
                end,
            },
            Key::AuthenticatedPage(key) => KeyView::AuthenticatedPage(key),
        }
    }
}

#[derive(Debug)]
struct Entry {
    key: Key,
    block: Block,
}

pub struct EntryView {
    pub key: KeyView,
    pub block: BlockView,
}

impl View for Entry {
    type V = EntryView;

    closed spec fn view(&self) -> EntryView {
        EntryView { key: self.key@, block: self.block@ }
    }
}

/// A cache: its entries, oldest first, the bytes that are claimed without an
/// entry, and the room that is reserved.
#[verifier::ext_equal]
pub struct CacheView {
    pub limit: nat,
    pub reserved: nat,
    pub peak: nat,
    pub entries: Seq<EntryView>,
    pub orphans: Seq<BlockView>,
    /// How many claims were given out.
    pub claims: nat,
}

pub open spec fn entries_total(entries: Seq<EntryView>) -> nat
    decreases entries.len(),
{
    if entries.len() == 0 {
        0
    } else {
        entries[0].block.amount + entries_total(entries.skip(1))
    }
}

pub open spec fn blocks_total(blocks: Seq<BlockView>) -> nat
    decreases blocks.len(),
{
    if blocks.len() == 0 {
        0
    } else {
        blocks[0].amount + blocks_total(blocks.skip(1))
    }
}

proof fn lemma_entries_push(entries: Seq<EntryView>, entry: EntryView)
    ensures
        entries_total(entries.push(entry)) == entries_total(entries) + entry.block.amount,
    decreases entries.len(),
{
    reveal_with_fuel(entries_total, 2);
    if entries.len() == 0 {
        assert(entries.push(entry).skip(1) =~= Seq::<EntryView>::empty());
    } else {
        assert(entries.push(entry).skip(1) =~= entries.skip(1).push(entry));
        lemma_entries_push(entries.skip(1), entry);
    }
}

proof fn lemma_blocks_push(blocks: Seq<BlockView>, block: BlockView)
    ensures
        blocks_total(blocks.push(block)) == blocks_total(blocks) + block.amount,
    decreases blocks.len(),
{
    reveal_with_fuel(blocks_total, 2);
    if blocks.len() == 0 {
        assert(blocks.push(block).skip(1) =~= Seq::<BlockView>::empty());
    } else {
        assert(blocks.push(block).skip(1) =~= blocks.skip(1).push(block));
        lemma_blocks_push(blocks.skip(1), block);
    }
}

proof fn lemma_entries_update(entries: Seq<EntryView>, i: int, entry: EntryView)
    requires
        0 <= i < entries.len(),
        entries[i].block.amount == entry.block.amount,
    ensures
        entries_total(entries.update(i, entry)) == entries_total(entries),
    decreases entries.len(),
{
    if i == 0 {
        assert(entries.update(i, entry).skip(1) =~= entries.skip(1));
    } else {
        assert(entries.update(i, entry).skip(1) =~= entries.skip(1).update(i - 1, entry));
        lemma_entries_update(entries.skip(1), i - 1, entry);
    }
}

proof fn lemma_blocks_update(blocks: Seq<BlockView>, i: int, block: BlockView)
    requires
        0 <= i < blocks.len(),
        blocks[i].amount == block.amount,
    ensures
        blocks_total(blocks.update(i, block)) == blocks_total(blocks),
    decreases blocks.len(),
{
    if i == 0 {
        assert(blocks.update(i, block).skip(1) =~= blocks.skip(1));
    } else {
        assert(blocks.update(i, block).skip(1) =~= blocks.skip(1).update(i - 1, block));
        lemma_blocks_update(blocks.skip(1), i - 1, block);
    }
}

proof fn lemma_blocks_remove(blocks: Seq<BlockView>, i: int)
    requires
        0 <= i < blocks.len(),
    ensures
        blocks_total(blocks.remove(i)) + blocks[i].amount == blocks_total(blocks),
    decreases blocks.len(),
{
    if i == 0 {
        assert(blocks.remove(i) =~= blocks.skip(1));
    } else {
        assert(blocks.remove(i).skip(1) =~= blocks.skip(1).remove(i - 1));
        assert(blocks.remove(i)[0] == blocks[0]);
        lemma_blocks_remove(blocks.skip(1), i - 1);
    }
}

/// What counts against the limit.
pub open spec fn used_by(cache: CacheView) -> nat {
    cache.reserved + entries_total(cache.entries) + blocks_total(cache.orphans)
}

/// The cache without its oldest entry. Bytes that are still claimed stay.
pub open spec fn evict(cache: CacheView) -> CacheView {
    let block = cache.entries[0].block;
    CacheView {
        entries: cache.entries.skip(1),
        orphans: if block.handles > 0 {
            cache.orphans.push(block)
        } else {
            cache.orphans
        },
        ..cache
    }
}

/// The cache after as many evictions as an amount needs, if that is enough.
pub open spec fn make_room(cache: CacheView, amount: nat) -> (CacheView, bool)
    decreases cache.entries.len(),
{
    if used_by(cache) + amount <= cache.limit {
        (cache, true)
    } else if cache.entries.len() == 0 {
        (cache, false)
    } else {
        make_room(evict(cache), amount)
    }
}

pub open spec fn no_room(amount: nat, used: nat, limit: nat) -> ErrorView {
    ErrorView::ResourceExhausted(
        "metadata cache: "@ + decimal(amount) + " requested, "@ + decimal(used) + " active, "@
            + decimal(limit) + " limit"@,
    )
}

/// The place of an entry that holds an address, if any does.
pub open spec fn first_of(entries: Seq<EntryView>, uri: Seq<char>) -> Option<IdentityView>
    decreases entries.len(),
{
    if entries.len() == 0 {
        None
    } else {
        match entries[0].key {
            KeyView::ObjectRange { identity, .. } if identity.uri == uri => Some(identity),
            _ => first_of(entries.skip(1), uri),
        }
    }
}

/// Whether the cache holds the address with another identity.
pub open spec fn conflicts(entries: Seq<EntryView>, identity: IdentityView) -> bool {
    first_of(entries, identity.uri) matches Some(known) && known != identity
}

pub open spec fn conflict_error() -> ErrorView {
    ErrorView::Corrupt("conflicting cached object reference"@)
}

/// Whether an entry is the range of an address.
pub open spec fn is_range(key: KeyView, uri: Seq<char>, start: u64, end: u64) -> bool {
    key matches KeyView::ObjectRange { identity, start: s, end: e } && identity.uri == uri && s
        == start && e == end
}

/// The place of a range.
pub open spec fn range_at(entries: Seq<EntryView>, uri: Seq<char>, start: u64, end: u64, i: int) -> bool {
    0 <= i < entries.len() && is_range(entries[i].key, uri, start, end)
}

pub open spec fn page_at(entries: Seq<EntryView>, key: PageKey, i: int) -> bool {
    0 <= i < entries.len() && entries[i].key == KeyView::AuthenticatedPage(key)
}

/// The cache after one more claim on the entry at a place.
pub open spec fn claimed(cache: CacheView, i: int) -> CacheView {
    let entry = cache.entries[i];
    CacheView {
        entries: cache.entries.update(
            i,
            EntryView {
                block: BlockView { handles: entry.block.handles + 1, ..entry.block },
                ..entry
            },
        ),
        claims: cache.claims + 1,
        ..cache
    }
}

/// A cache whose limit is kept.
#[derive(Debug)]
pub struct Cache {
    limit: usize,
    reserved: usize,
    used: usize,
    peak: usize,
    claims: u64,
    entries: Vec<Entry>,
    orphans: Vec<Block>,
}

spec fn entries_view(entries: Seq<Entry>) -> Seq<EntryView> {
    Seq::new(entries.len(), |i: int| entries[i]@)
}

spec fn blocks_view(blocks: Seq<Block>) -> Seq<BlockView> {
    Seq::new(blocks.len(), |i: int| blocks[i]@)
}

/// What counts against the limit is no part of the view: it is the sum of the
/// parts, `used_by`.
impl View for Cache {
    type V = CacheView;

    closed spec fn view(&self) -> CacheView {
        CacheView {
            limit: self.limit as nat,
            reserved: self.reserved as nat,
            peak: self.peak as nat,
            entries: entries_view(self.entries@),
            orphans: blocks_view(self.orphans@),
            claims: self.claims as nat,
        }
    }
}

/// What every cache keeps: the limit, one entry for each key, one identity for
/// each address, whole pages, and claims on all bytes without an entry.
pub open spec fn orderly(cache: CacheView) -> bool {
    &&& used_by(cache) <= cache.limit
    &&& used_by(cache) <= cache.peak <= cache.limit
    &&& forall|i: int|
        0 <= i < cache.entries.len() ==> (#[trigger] cache.entries[i]).block.handles
            <= cache.claims && cache.entries[i].block.id < cache.claims
    &&& forall|i: int|
        0 <= i < cache.orphans.len() ==> 0 < (#[trigger] cache.orphans[i]).handles <= cache.claims
            && cache.orphans[i].id < cache.claims
    &&& forall|i: int, j: int|
        #![trigger cache.entries[i], cache.entries[j]]
        0 <= i < j < cache.entries.len() ==> cache.entries[i].block.id != cache.entries[j].block.id
            && !same_key(cache.entries[i].key, cache.entries[j].key)
    &&& forall|i: int, j: int|
        #![trigger cache.orphans[i], cache.orphans[j]]
        0 <= i < j < cache.orphans.len() ==> cache.orphans[i].id != cache.orphans[j].id
    &&& forall|i: int, j: int|
        #![trigger cache.entries[i], cache.orphans[j]]
        0 <= i < cache.entries.len() && 0 <= j < cache.orphans.len() ==> cache.entries[i].block.id
            != cache.orphans[j].id
    &&& forall|i: int|
        0 <= i < cache.entries.len() ==> ((#[trigger] cache.entries[i]).key is AuthenticatedPage
            ==> cache.entries[i].block.bytes.len() == 4096)
}

/// Keys that name one thing: a range by its address and bounds, a page by its key.
pub open spec fn same_key(a: KeyView, b: KeyView) -> bool {
    match (a, b) {
        (
            KeyView::ObjectRange { identity: x, start: s, end: e },
            KeyView::ObjectRange { identity: y, start: t, end: f },
        ) => x.uri == y.uri && s == t && e == f,
        (KeyView::AuthenticatedPage(x), KeyView::AuthenticatedPage(y)) => x == y,
        _ => false,
    }
}

/// An eviction frees what nobody claims, and keeps the order.
pub proof fn lemma_evict(cache: CacheView)
    requires
        orderly(cache),
        cache.entries.len() > 0,
    ensures
        orderly(evict(cache)),
        used_by(evict(cache)) == if cache.entries[0].block.handles > 0 {
            used_by(cache)
        } else {
            (used_by(cache) - cache.entries[0].block.amount) as nat
        },
{
    let after = evict(cache);
    let block = cache.entries[0].block;
    lemma_blocks_push(cache.orphans, block);
    assert forall|i: int| 0 <= i < after.entries.len() implies (#[trigger] after.entries[i])
        == cache.entries[i + 1] by {}
    assert forall|i: int| 0 <= i < after.orphans.len() implies (#[trigger] after.orphans[i])
        == if i < cache.orphans.len() {
        cache.orphans[i]
    } else {
        block
    } by {}
    assert(cache.entries[0].block == block);
}

/// Room is made from the oldest entries, and only as far as it is needed.
pub proof fn lemma_make_room(cache: CacheView, amount: nat)
    requires
        orderly(cache),
    ensures
        orderly(make_room(cache, amount).0),
        make_room(cache, amount).1 <==> used_by(make_room(cache, amount).0) + amount
            <= cache.limit,
        !make_room(cache, amount).1 ==> make_room(cache, amount).0.entries.len() == 0,
        make_room(cache, amount).0.limit == cache.limit,
        make_room(cache, amount).0.reserved == cache.reserved,
        make_room(cache, amount).0.claims == cache.claims,
        make_room(cache, amount).0.peak == cache.peak,
        exists|k: int|
            0 <= k <= cache.entries.len() && make_room(cache, amount).0.entries
                == #[trigger] cache.entries.skip(k),
    decreases cache.entries.len(),
{
    if used_by(cache) + amount <= cache.limit || cache.entries.len() == 0 {
        assert(cache.entries.skip(0) =~= cache.entries);
    } else {
        lemma_evict(cache);
        lemma_make_room(evict(cache), amount);
        let k = choose|k: int|
            0 <= k <= evict(cache).entries.len() && make_room(evict(cache), amount).0.entries
                == #[trigger] evict(cache).entries.skip(k);
        assert(evict(cache).entries.skip(k) =~= cache.entries.skip(k + 1));
    }
}

impl Cache {
    /// The counters agree with the contents.
    pub closed spec fn wf(&self) -> bool {
        &&& self.used == used_by(self@)
        &&& orderly(self@)
    }

    /// The contents of a cache are in order at all times.
    pub proof fn lemma_orderly(&self)
        requires
            self.wf(),
        ensures
            orderly(self@),
    {
    }

    pub fn new(limit: usize) -> (cache: Self)
        ensures
            cache.wf(),
            cache@ == (CacheView {
                limit: limit as nat,
                reserved: 0,
                peak: 0,
                entries: Seq::empty(),
                orphans: Seq::empty(),
                claims: 0,
            }),
    {
        let cache = Cache {
            limit,
            reserved: 0,
            used: 0,
            peak: 0,
            claims: 0,
            entries: Vec::new(),
            orphans: Vec::new(),
        };
        assert(cache@.entries =~= Seq::empty());
        assert(cache@.orphans =~= Seq::empty());
        cache
    }

    pub fn used(&self) -> (n: usize)
        requires
            self.wf(),
        ensures
            n == used_by(self@),
    {
        self.used
    }

    pub fn peak(&self) -> (n: usize)
        requires
            self.wf(),
        ensures
            n == self@.peak,
    {
        self.peak
    }

    fn evict_oldest(&mut self)
        requires
            old(self).wf(),
            old(self)@.entries.len() > 0,
        ensures
            final(self).wf(),
            final(self)@ == evict(old(self)@),
    {
        let ghost before = self@;
        proof {
            lemma_evict(before);
            assert(before.entries[0] == self.entries@[0]@);
        }
        let entry = self.entries.remove(0);
        assert(entries_view(self.entries@) =~= before.entries.skip(1));
        let block = entry.block;
        if block.handles > 0 {
            let ghost view = block@;
            self.orphans.push(block);
            assert(blocks_view(self.orphans@) =~= before.orphans.push(view));
        } else {
            self.used = self.used - block.amount;
        }
    }

    /// Reserves room, evicting the oldest entries as far as that takes.
    pub fn reserve(&mut self, amount: usize) -> (r: Result<Reservation, RuntimeError>)
        requires
            old(self).wf(),
        ensures
            final(self).wf(),
            ({
                let (room, enough) = make_room(old(self)@, amount as nat);
                match r {
                    Ok(reservation) => {
                        &&& enough
                        &&& reservation@ == amount
                        &&& final(self)@ == (CacheView {
                            reserved: room.reserved + amount as nat,
                            peak: if used_by(room) + amount > room.peak {
                                used_by(room) + amount as nat
                            } else {
                                room.peak
                            },
                            ..room
                        })
                    },
                    Err(e) => {
                        &&& !enough
                        &&& final(self)@ == room
                        &&& e@ == no_room(amount as nat, used_by(room), room.limit)
                    },
                }
            }),
    {
        let ghost plan = make_room(self@, amount as nat);
        loop
            invariant
                self.wf(),
                plan == make_room(old(self)@, amount as nat),
                plan == make_room(self@, amount as nat),
            decreases self@.entries.len(),
        {
            if self.used <= self.limit && amount <= self.limit - self.used {
                let next: usize = self.used + amount;
                let ghost before = self@;
                self.reserved = self.reserved + amount;
                self.used = next;
                if next > self.peak {
                    self.peak = next;
                }
                assert(self@.entries =~= before.entries);
                assert(self@.orphans =~= before.orphans);
                return Ok(Reservation { amount });
            }
            if self.entries.len() == 0 {
                let mut text = "metadata cache: ".to_owned();
                append_decimal(&mut text, amount as u64);
                text.append(" requested, ");
                append_decimal(&mut text, self.used as u64);
                text.append(" active, ");
                append_decimal(&mut text, self.limit as u64);
                text.append(" limit");
                return Err(RuntimeError::ResourceExhausted(text));
            }
            self.evict_oldest();
        }
    }

    /// Gives a reservation back.
    pub fn release(&mut self, reservation: Reservation)
        requires
            old(self).wf(),
            reservation@ <= old(self)@.reserved,
        ensures
            final(self).wf(),
            final(self)@ == (CacheView {
                reserved: (old(self)@.reserved - reservation@) as nat,
                ..old(self)@
            }),
    {
        self.reserved = self.reserved - reservation.amount;
        self.used = self.used - reservation.amount;
    }

    /// Gives a part of a reservation back.
    pub fn shrink_to(&mut self, reservation: &mut Reservation, amount: usize)
        requires
            old(self).wf(),
            old(reservation)@ <= old(self)@.reserved,
            amount <= old(reservation)@,
        ensures
            final(self).wf(),
            final(reservation)@ == amount,
            final(self)@ == (CacheView {
                reserved: (old(self)@.reserved - (old(reservation)@ - amount)) as nat,
                ..old(self)@
            }),
    {
        let excess: usize = reservation.amount - amount;
        self.reserved = self.reserved - excess;
        self.used = self.used - excess;
        reservation.amount = amount;
    }

    fn find_identity(&self, uri: &String) -> (found: Option<&Identity>)
        ensures
            match found {
                Some(identity) => first_of(self@.entries, uri@) == Some(identity@),
                None => first_of(self@.entries, uri@) is None,
            },
    {
        let ghost all = self@.entries;
        assert(all.skip(0) =~= all);
        let mut i: usize = 0;
        while i < self.entries.len()
            invariant
                i <= self.entries@.len(),
                all == entries_view(self.entries@),
                first_of(all, uri@) == first_of(all.skip(i as int), uri@),
            decreases self.entries@.len() - i,
        {
            assert(all.skip(i as int).skip(1) =~= all.skip(i + 1));
            assert(all.skip(i as int)[0] == self.entries@[i as int]@);
            if let Key::ObjectRange { identity, start, end } = &self.entries[i].key {
                if identity.uri == *uri {
                    return Some(identity);
                }
            }
            i = i + 1;
        }
        None
    }

    fn check(&self, identity: &Identity) -> (r: Result<(), RuntimeError>)
        ensures
            match r {
                Ok(()) => !conflicts(self@.entries, identity@),
                Err(e) => conflicts(self@.entries, identity@) && e@ == conflict_error(),
            },
    {
        match self.find_identity(&identity.uri) {
            None => Ok(()),
            Some(known) => if same_identity(known, identity) {
                Ok(())
            } else {
                Err(corrupt("conflicting cached object reference"))
            },
        }
    }

    fn find_range(&self, uri: &String, start: u64, end: u64) -> (at: Option<usize>)
        ensures
            match at {
                Some(i) => range_at(self@.entries, uri@, start, end, i as int),
                None => forall|i: int| !range_at(self@.entries, uri@, start, end, i),
            },
    {
        let mut i: usize = 0;
        while i < self.entries.len()
            invariant
                i <= self.entries@.len(),
                forall|k: int| 0 <= k < i ==> !range_at(self@.entries, uri@, start, end, k),
            decreases self.entries@.len() - i,
        {
            assert(self@.entries[i as int] == self.entries@[i as int]@);
            if let Key::ObjectRange { identity, start: s, end: e } = &self.entries[i].key {
                if identity.uri == *uri && *s == start && *e == end {
                    return Some(i);
                }
            }
            i = i + 1;
        }
        None
    }

    fn find_page(&self, key: &PageKey) -> (at: Option<usize>)
        ensures
            match at {
                Some(i) => page_at(self@.entries, *key, i as int),
                None => forall|i: int| !page_at(self@.entries, *key, i),
            },
    {
        let mut i: usize = 0;
        while i < self.entries.len()
            invariant
                i <= self.entries@.len(),
                forall|k: int| 0 <= k < i ==> !page_at(self@.entries, *key, k),
            decreases self.entries@.len() - i,
        {
            assert(self@.entries[i as int] == self.entries@[i as int]@);
            if let Key::AuthenticatedPage(known) = &self.entries[i].key {
                if known.generation == key.generation && known.checkpoint == key.checkpoint
                    && known.page == key.page {
                    return Some(i);
                }
            }
            i = i + 1;
        }
        None
    }

    fn claim(&mut self, i: usize) -> (held: Held)
        requires
            old(self).wf(),
            i < old(self)@.entries.len(),
            old(self)@.claims < u64::MAX,
        ensures
            final(self).wf(),
            final(self)@ == claimed(old(self)@, i as int),
            held@ == old(self)@.entries[i as int].block.id,
    {
        let ghost before = self@;
        assert(before.entries[i as int] == self.entries@[i as int]@);
        let entry = self.entries.remove(i);
        let Entry { key, block } = entry;
        let Block { id, amount, bytes, handles } = block;
        self.entries.insert(
            i,
            Entry { key, block: Block { id, amount, bytes, handles: handles + 1 } },
        );
        self.claims = self.claims + 1;
        proof {
            let after = claimed(before, i as int);
            assert(self@.entries =~= after.entries);
            lemma_entries_update(before.entries, i as int, after.entries[i as int]);
            assert(self@.orphans =~= before.orphans);
            assert forall|k: int| 0 <= k < after.entries.len() implies (
            #[trigger] after.entries[k]).block.id == before.entries[k].block.id
                && after.entries[k].key == before.entries[k].key && after.entries[k].block.bytes
                == before.entries[k].block.bytes by {}
        }
        Held { id }
    }

    /// Claims a cached range of an object.
    pub fn get(&mut self, identity: &Identity, range: &Range<u64>) -> (r: Result<
        Option<Held>,
        RuntimeError,
    >)
        requires
            old(self).wf(),
            old(self)@.claims < u64::MAX,
        ensures
            final(self).wf(),
            match r {
                Err(e) => {
                    &&& conflicts(old(self)@.entries, identity@)
                    &&& e@ == conflict_error()
                    &&& final(self)@ == old(self)@
                },
                Ok(None) => {
                    &&& !conflicts(old(self)@.entries, identity@)
                    &&& forall|i: int|
                        !range_at(old(self)@.entries, identity@.uri, range.start, range.end, i)
                    &&& final(self)@ == old(self)@
                },
                Ok(Some(held)) => {
                    &&& !conflicts(old(self)@.entries, identity@)
                    &&& exists|i: int| #[trigger]
                        range_at(old(self)@.entries, identity@.uri, range.start, range.end, i)
                            && held@ == old(self)@.entries[i].block.id && final(self)@ == claimed(
                            old(self)@,
                            i,
                        )
                },
            },
    {
        self.check(identity)?;
        match self.find_range(&identity.uri, range.start, range.end) {
            None => Ok(None),
            Some(i) => {
                let ghost before = self@;
                let held = self.claim(i);
                assert(range_at(
                    before.entries,
                    identity@.uri,
                    range.start,
                    range.end,
                    i as int,
                ));
                Ok(Some(held))
            },
        }
    }

    /// The metadata by which an address is pinned, where the cache knows it.
    pub fn metadata_for(&self, reference: &PageObjectReference) -> (r: Result<
        Option<ObjectMetadata>,
        RuntimeError,
    >)
        ensures
            match first_of(self@.entries, reference.uri@) {
                None => r matches Ok(None),
                Some(identity) => if identity.hash != reference.sha256 || identity.length
                    != reference.length {
                    r matches Err(e) && e@ == conflict_error()
                } else {
                    match identity.version {
                        None => r matches Ok(None),
                        Some(version) => r matches Ok(Some(metadata)) && metadata@ == (
                            identity.length,
                            version,
                        ),
                    }
                },
            },
    {
        match self.find_identity(&reference.uri) {
            None => Ok(None),
            Some(identity) => {
                if !(identity.hash == reference.sha256) || identity.length != reference.length {
                    return Err(corrupt("conflicting cached object reference"));
                }
                match &identity.version {
                    None => Ok(None),
                    Some(version) => Ok(
                        Some(ObjectMetadata { length: identity.length, version: version.clone() }),
                    ),
                }
            },
        }
    }

    /// Claims a cached page.
    pub fn get_page(&mut self, key: PageKey) -> (held: Option<Held>)
        requires
            old(self).wf(),
            old(self)@.claims < u64::MAX,
        ensures
            final(self).wf(),
            match held {
                None => {
                    &&& forall|i: int| !page_at(old(self)@.entries, key, i)
                    &&& final(self)@ == old(self)@
                },
                Some(held) => exists|i: int| #[trigger]
                    page_at(old(self)@.entries, key, i) && held@ == old(
                        self,
                    )@.entries[i].block.id && final(self)@ == claimed(old(self)@, i) && old(
                        self,
                    )@.entries[i].block.bytes.len() == 4096,
            },
    {
        match self.find_page(&key) {
            None => None,
            Some(i) => {
                let ghost before = self@;
                let held = self.claim(i);
                assert(page_at(before.entries, key, i as int));
                Some(held)
            },
        }
    }

    fn take_in(&mut self, key: Key, bytes: Vec<u8>, reservation: Reservation, handles: u64)
        requires
            old(self).wf(),
            reservation@ <= old(self)@.reserved,
            old(self)@.claims < u64::MAX,
            handles <= 1,
            forall|i: int|
                0 <= i < old(self)@.entries.len() ==> !same_key(
                    (#[trigger] old(self)@.entries[i]).key,
                    key@,
                ),
            key@ is AuthenticatedPage ==> bytes@.len() == 4096,
        ensures
            final(self).wf(),
            final(self)@ == admitted(
                old(self)@,
                key@,
                bytes@,
                reservation@,
                handles as nat,
            ),
    {
        let ghost before = self@;
        let id: u64 = self.claims;
        let ghost entry = EntryView {
            key: key@,
            block: BlockView { id, amount: reservation@, bytes: bytes@, handles: handles as nat },
        };
        self.entries.push(
            Entry { key, block: Block { id, amount: reservation.amount, bytes, handles } },
        );
        self.reserved = self.reserved - reservation.amount;
        self.claims = self.claims + 1;
        proof {
            assert(self@.entries =~= before.entries.push(entry));
            assert(self@.orphans =~= before.orphans);
            lemma_entries_push(before.entries, entry);
            let after = self@;
            assert forall|i: int| 0 <= i < after.entries.len() implies (
            #[trigger] after.entries[i]) == if i < before.entries.len() {
                before.entries[i]
            } else {
                entry
            } by {}
        }
    }

    /// Admits a page that was authenticated, unless it is there.
    pub fn insert_page(&mut self, key: PageKey, bytes: Vec<u8>, allocated: usize, reservation:
        Reservation) -> (r: Result<(), RuntimeError>)
        requires
            old(self).wf(),
            reservation@ <= old(self)@.reserved,
            old(self)@.claims < u64::MAX,
        ensures
            final(self).wf(),
            match r {
                Err(e) => {
                    &&& final(self)@ == given_back(old(self)@, reservation@)
                    &&& if bytes@.len() != 4096 {
                        e@ == ErrorView::Corrupt("invalid authenticated page length"@)
                    } else {
                        &&& allocated + 256 > reservation@
                        &&& e@ == ErrorView::ResourceExhausted(
                            "page allocation exceeded reservation"@,
                        )
                    }
                },
                Ok(()) => {
                    &&& bytes@.len() == 4096
                    &&& allocated + 256 <= reservation@
                    &&& if exists|i: int| page_at(old(self)@.entries, key, i) {
                        final(self)@ == given_back(old(self)@, reservation@)
                    } else {
                        final(self)@ == admitted(
                            old(self)@,
                            KeyView::AuthenticatedPage(key),
                            bytes@,
                            reservation@,
                            0,
                        )
                    }
                },
            },
    {
        if bytes.len() != 4096 {
            self.release(reservation);
            return Err(corrupt("invalid authenticated page length"));
        }
        if reservation.amount < 256 || allocated > reservation.amount - 256 {
            self.release(reservation);
            return Err(exhausted("page allocation exceeded reservation"));
        }
        if self.find_page(&key).is_some() {
            self.release(reservation);
            return Ok(());
        }
        proof {
            assert forall|i: int| 0 <= i < self@.entries.len() implies !same_key(
                (#[trigger] self@.entries[i]).key,
                KeyView::AuthenticatedPage(key),
            ) by {
                assert(!page_at(self@.entries, key, i));
            }
        }
        self.take_in(Key::AuthenticatedPage(key), bytes, reservation, 0);
        Ok(())
    }

    /// Admits a range of an object, unless it is there, and claims it.
    pub fn insert(
        &mut self,
        identity: Identity,
        range: Range<u64>,
        bytes: Vec<u8>,
        allocated: usize,
        reservation: Reservation,
    ) -> (r: Result<Held, RuntimeError>)
        requires
            old(self).wf(),
            reservation@ <= old(self)@.reserved,
            old(self)@.claims < u64::MAX,
        ensures
            final(self).wf(),
            match r {
                Err(e) => {
                    &&& final(self)@ == given_back(old(self)@, reservation@)
                    &&& if allocated + 256 + utf8_length(identity@.uri) * 4 > reservation@ {
                        e@ == ErrorView::ResourceExhausted("cache allocation exceeded reservation"@)
                    } else {
                        conflicts(old(self)@.entries, identity@) && e@ == conflict_error()
                    }
                },
                Ok(held) => {
                    &&& allocated + 256 + utf8_length(identity@.uri) * 4 <= reservation@
                    &&& !conflicts(old(self)@.entries, identity@)
                    &&& {
                        ||| exists|i: int| #[trigger]
                            range_at(old(self)@.entries, identity@.uri, range.start, range.end, i)
                                && held@ == old(self)@.entries[i].block.id && final(self)@
                                == claimed(given_back(old(self)@, reservation@), i)
                        ||| {
                            &&& forall|i: int|
                                !range_at(
                                    old(self)@.entries,
                                    identity@.uri,
                                    range.start,
                                    range.end,
                                    i,
                                )
                            &&& held@ == old(self)@.claims
                            &&& final(self)@ == admitted(
                                old(self)@,
                                (KeyView::ObjectRange {
                                    identity: identity@,
                                    start: range.start,
                                    end: range.end,
                                }),
                                bytes@,
                                reservation@,
                                1,
                            )
                        }
                    }
                },
            },
    {
        let size: u128 = allocated as u128 + 256 + byte_length(identity.uri.as_str()) * 4;
        if size > reservation.amount as u128 {
            self.release(reservation);
            return Err(exhausted("cache allocation exceeded reservation"));
        }
        if let Err(e) = self.check(&identity) {
            self.release(reservation);
            return Err(e);
        }
        match self.find_range(&identity.uri, range.start, range.end) {
            Some(i) => {
                let ghost before = self@;
                self.release(reservation);
                let held = self.claim(i);
                assert(range_at(
                    before.entries,
                    identity@.uri,
                    range.start,
                    range.end,
                    i as int,
                ));
                Ok(held)
            },
            None => {
                let id: u64 = self.claims;
                proof {
                    assert forall|i: int| 0 <= i < self@.entries.len() implies !same_key(
                        (#[trigger] self@.entries[i]).key,
                        KeyView::ObjectRange {
                            identity: identity@,
                            start: range.start,
                            end: range.end,
                        },
                    ) by {
                        assert(!range_at(
                            self@.entries,
                            identity@.uri,
                            range.start,
                            range.end,
                            i,
                        ));
                    }
                }
                self.take_in(
                    Key::ObjectRange { identity, start: range.start, end: range.end },
                    bytes,
                    reservation,
                    1,
                );
                Ok(Held { id })
            },
        }
    }

    /// The bytes that are claimed.
    pub fn bytes(&self, held: &Held) -> (bytes: Option<&Vec<u8>>)
        requires
            self.wf(),
        ensures
            match bytes {
                Some(bytes) => {
                    ||| exists|i: int|
                        0 <= i < self@.entries.len() && (#[trigger] self@.entries[i]).block.id
                            == held@ && self@.entries[i].block.bytes == bytes@
                    ||| exists|i: int|
                        0 <= i < self@.orphans.len() && (#[trigger] self@.orphans[i]).id == held@
                            && self@.orphans[i].bytes == bytes@
                },
                None => !known(self@, held@),
            },
    {
        let mut i: usize = 0;
        while i < self.entries.len()
            invariant
                i <= self.entries@.len(),
                forall|k: int| 0 <= k < i ==> (#[trigger] self@.entries[k]).block.id != held@,
            decreases self.entries@.len() - i,
        {
            assert(self@.entries[i as int] == self.entries@[i as int]@);
            if self.entries[i].block.id == held.id {
                return Some(&self.entries[i].block.bytes);
            }
            i = i + 1;
        }
        let mut j: usize = 0;
        while j < self.orphans.len()
            invariant
                j <= self.orphans@.len(),
                forall|k: int| 0 <= k < j ==> (#[trigger] self@.orphans[k]).id != held@,
                forall|k: int|
                    0 <= k < self@.entries.len() ==> (#[trigger] self@.entries[k]).block.id
                        != held@,
            decreases self.orphans@.len() - j,
        {
            assert(self@.orphans[j as int] == self.orphans@[j as int]@);
            if self.orphans[j].id == held.id {
                return Some(&self.orphans[j].bytes);
            }
            j = j + 1;
        }
        None
    }

    /// Gives a claim up. Bytes without an entry and without a claim are gone.
    pub fn give_up(&mut self, held: Held)
        requires
            old(self).wf(),
            is_claimed(old(self)@, held@),
        ensures
            final(self).wf(),
            final(self)@ == given_up(old(self)@, held@),
    {
        let ghost before = self@;
        let mut i: usize = 0;
        while i < self.entries.len()
            invariant
                self.wf(),
                self@ == before,
                before == old(self)@,
                i <= self.entries@.len(),
                is_claimed(before, held@),
                forall|k: int| 0 <= k < i ==> (#[trigger] before.entries[k]).block.id != held@,
            decreases self.entries@.len() - i,
        {
            assert(before.entries[i as int] == self.entries@[i as int]@);
            if self.entries[i].block.id == held.id && self.entries[i].block.handles > 0 {
                let entry = self.entries.remove(i);
                let Entry { key, block } = entry;
                let Block { id, amount, bytes, handles } = block;
                self.entries.insert(
                    i,
                    Entry { key, block: Block { id, amount, bytes, handles: handles - 1 } },
                );
                proof {
                    let at = i as int;
                    assert(has_entry(before.entries, held@, at));
                    lemma_entry_with(before, held@, at);
                    let after = given_up(before, held@);
                    assert(self@.entries =~= after.entries);
                    assert(self@.orphans =~= after.orphans);
                    lemma_entries_update(before.entries, at, after.entries[at]);
                    assert forall|k: int| 0 <= k < after.entries.len() implies (
                    #[trigger] after.entries[k]).block.id == before.entries[k].block.id
                        && after.entries[k].key == before.entries[k].key
                        && after.entries[k].block.bytes == before.entries[k].block.bytes by {}
                }
                return;
            }
            proof {
                if before.entries[i as int].block.id == held@ {
                    lemma_entry_is_claimed(before, held@, i as int);
                }
            }
            i = i + 1;
        }
        let mut j: usize = 0;
        while j < self.orphans.len()
            invariant
                self.wf(),
                self@ == before,
                before == old(self)@,
                j <= self.orphans@.len(),
                forall|k: int|
                    0 <= k < before.entries.len() ==> (#[trigger] before.entries[k]).block.id
                        != held@,
                forall|k: int| 0 <= k < j ==> (#[trigger] before.orphans[k]).id != held@,
                exists|k: int| has_orphan(before.orphans, held@, k),
            decreases self.orphans@.len() - j,
        {
            assert(before.orphans[j as int] == self.orphans@[j as int]@);
            if self.orphans[j].id == held.id {
                let ghost at = j as int;
                let block = self.orphans.remove(j);
                let Block { id, amount, bytes, handles } = block;
                if handles > 1 {
                    self.orphans.insert(j, Block { id, amount, bytes, handles: handles - 1 });
                    proof {
                        assert(has_orphan(before.orphans, held@, at));
                        lemma_orphan_with(before, held@, at);
                        let after = given_up(before, held@);
                        assert(self@.entries =~= after.entries);
                        assert(self@.orphans =~= after.orphans);
                        lemma_blocks_update(before.orphans, at, after.orphans[at]);
                        assert forall|k: int| 0 <= k < after.orphans.len() implies (
                        #[trigger] after.orphans[k]).id == before.orphans[k].id by {}
                    }
                } else {
                    proof {
                        lemma_blocks_remove(before.orphans, at);
                    }
                    self.used = self.used - amount;
                    proof {
                        assert(has_orphan(before.orphans, held@, at));
                        lemma_orphan_with(before, held@, at);
                        let after = given_up(before, held@);
                        assert(self@.entries =~= after.entries);
                        assert(self@.orphans =~= after.orphans);
                        assert forall|k: int| 0 <= k < after.orphans.len() implies (
                        #[trigger] after.orphans[k]) == before.orphans[if k < at {
                            k
                        } else {
                            k + 1
                        }] by {}
                    }
                }
                return;
            }
            j = j + 1;
        }
    }
}

/// Whether bytes with this claim are there.
pub open spec fn known(cache: CacheView, id: u64) -> bool {
    ||| exists|i: int| 0 <= i < cache.entries.len() && (#[trigger] cache.entries[i]).block.id == id
    ||| exists|i: int| 0 <= i < cache.orphans.len() && (#[trigger] cache.orphans[i]).id == id
}

/// Whether a claim on bytes is open.
pub open spec fn is_claimed(cache: CacheView, id: u64) -> bool {
    ||| exists|i: int| #[trigger]
        has_entry(cache.entries, id, i) && cache.entries[i].block.handles > 0
    ||| exists|i: int| has_orphan(cache.orphans, id, i)
}

pub open spec fn has_entry(entries: Seq<EntryView>, id: u64, i: int) -> bool {
    0 <= i < entries.len() && entries[i].block.id == id
}

pub open spec fn has_orphan(orphans: Seq<BlockView>, id: u64, i: int) -> bool {
    0 <= i < orphans.len() && orphans[i].id == id
}

/// The place of the entry with this claim.
pub open spec fn entry_with(entries: Seq<EntryView>, id: u64) -> Option<int> {
    if exists|i: int| has_entry(entries, id, i) {
        Some(choose|i: int| has_entry(entries, id, i))
    } else {
        None
    }
}

pub open spec fn orphan_with(orphans: Seq<BlockView>, id: u64) -> Option<int> {
    if exists|i: int| has_orphan(orphans, id, i) {
        Some(choose|i: int| has_orphan(orphans, id, i))
    } else {
        None
    }
}

proof fn lemma_entry_with(cache: CacheView, id: u64, i: int)
    requires
        orderly(cache),
        has_entry(cache.entries, id, i),
    ensures
        entry_with(cache.entries, id) == Some(i),
{
    let k = choose|k: int| has_entry(cache.entries, id, k);
    assert(cache.entries[k].block.id == cache.entries[i].block.id);
}

proof fn lemma_orphan_with(cache: CacheView, id: u64, i: int)
    requires
        orderly(cache),
        has_orphan(cache.orphans, id, i),
    ensures
        orphan_with(cache.orphans, id) == Some(i),
        entry_with(cache.entries, id) is None,
{
    let k = choose|k: int| has_orphan(cache.orphans, id, k);
    assert(cache.orphans[k].id == cache.orphans[i].id);
    if exists|e: int| has_entry(cache.entries, id, e) {
        let e = choose|e: int| has_entry(cache.entries, id, e);
        assert(cache.entries[e].block.id != cache.orphans[i].id);
    }
}

proof fn lemma_entry_is_claimed(cache: CacheView, id: u64, i: int)
    requires
        orderly(cache),
        has_entry(cache.entries, id, i),
        is_claimed(cache, id),
    ensures
        cache.entries[i].block.handles > 0,
{
    if exists|k: int| #[trigger]
        has_entry(cache.entries, id, k) && cache.entries[k].block.handles > 0 {
        let k = choose|k: int| #[trigger]
            has_entry(cache.entries, id, k) && cache.entries[k].block.handles > 0;
        assert(cache.entries[k].block.id == cache.entries[i].block.id);
    } else {
        let k = choose|k: int| has_orphan(cache.orphans, id, k);
        assert(cache.entries[i].block.id != cache.orphans[k].id);
    }
}

/// The cache after a claim was given up.
pub open spec fn given_up(cache: CacheView, id: u64) -> CacheView {
    match entry_with(cache.entries, id) {
        Some(i) => {
            let entry = cache.entries[i];
            CacheView {
                entries: cache.entries.update(
                    i,
                    EntryView {
                        block: BlockView {
                            handles: (entry.block.handles - 1) as nat,
                            ..entry.block
                        },
                        ..entry
                    },
                ),
                ..cache
            }
        },
        None => match orphan_with(cache.orphans, id) {
            Some(i) => {
                let block = cache.orphans[i];
                CacheView {
                    orphans: if block.handles > 1 {
                        cache.orphans.update(
                            i,
                            BlockView { handles: (block.handles - 1) as nat, ..block },
                        )
                    } else {
                        cache.orphans.remove(i)
                    },
                    ..cache
                }
            },
            None => cache,
        },
    }
}

/// The cache after a reservation came back.
pub open spec fn given_back(cache: CacheView, amount: nat) -> CacheView {
    CacheView { reserved: (cache.reserved - amount) as nat, ..cache }
}

/// The cache after a reservation was turned into an entry.
pub open spec fn admitted(
    cache: CacheView,
    key: KeyView,
    bytes: Seq<u8>,
    amount: nat,
    handles: nat,
) -> CacheView {
    CacheView {
        reserved: (cache.reserved - amount) as nat,
        entries: cache.entries.push(
            EntryView {
                key,
                block: BlockView { id: cache.claims as u64, amount, bytes, handles },
            },
        ),
        claims: cache.claims + 1,
        ..cache
    }
}

/// Turning a reservation into an entry does not change what is used.
pub proof fn lemma_admission_is_paid(
    cache: CacheView,
    key: KeyView,
    bytes: Seq<u8>,
    amount: nat,
    handles: nat,
)
    requires
        amount <= cache.reserved,
    ensures
        used_by(admitted(cache, key, bytes, amount, handles)) == used_by(cache),
{
    lemma_entries_push(
        cache.entries,
        EntryView { key, block: BlockView { id: cache.claims as u64, amount, bytes, handles } },
    );
}

/// Bytes that are claimed count against the limit until the last claim on them
/// is given up, whether or not their entry was evicted.
pub proof fn lemma_claimed_bytes_count(cache: CacheView)
    requires
        orderly(cache),
        cache.entries.len() > 0,
        cache.entries[0].block.handles > 0,
    ensures
        used_by(evict(cache)) == used_by(cache),
        known(evict(cache), cache.entries[0].block.id),
{
    lemma_evict(cache);
    let after = evict(cache);
    assert(after.orphans[cache.orphans.len() as int].id == cache.entries[0].block.id);
}

} // verus!

//! Object storage: revisions, bounded ranges, and an in-memory store.
use crate::bytes::copy_range;
use crate::hash::{hex_text, sha256_of, Sha256};
use crate::text::{append_decimal, decimal, joined, lemma_decimal_injective};
use std::ops::Range;
use vstd::prelude::*;
use vstd::std_specs::cmp::PartialEqSpecImpl;

verus! {

#[derive(Clone, Debug)]
pub enum StorageError {
    NotFound(String),
    ImmutableConflict(String),
    UnsafeKey(String),
    Io(String),
    MaximumLengthExceeded,
    VerificationFailed(String),
    Injected(String),
    Unsupported(String),
}

/// A `StorageError` with each text taken as its characters.
pub enum StorageErrorView {
    NotFound(Seq<char>),
    ImmutableConflict(Seq<char>),
    UnsafeKey(Seq<char>),
    Io(Seq<char>),
    MaximumLengthExceeded,
    VerificationFailed(Seq<char>),
    Injected(Seq<char>),
    Unsupported(Seq<char>),
}

impl View for StorageError {
    type V = StorageErrorView;

    open spec fn view(&self) -> StorageErrorView {
        match *self {
            StorageError::NotFound(m) => StorageErrorView::NotFound(m@),
            StorageError::ImmutableConflict(m) => StorageErrorView::ImmutableConflict(m@),
            StorageError::UnsafeKey(m) => StorageErrorView::UnsafeKey(m@),
            StorageError::Io(m) => StorageErrorView::Io(m@),
            StorageError::MaximumLengthExceeded => StorageErrorView::MaximumLengthExceeded,
            StorageError::VerificationFailed(m) => StorageErrorView::VerificationFailed(m@),
            StorageError::Injected(m) => StorageErrorView::Injected(m@),
            StorageError::Unsupported(m) => StorageErrorView::Unsupported(m@),
        }
    }
}

pub open spec fn storage_error_code(e: StorageErrorView) -> Seq<char> {
    match e {
        StorageErrorView::NotFound(_) => "OTMP_OBJECT_NOT_FOUND"@,
        StorageErrorView::ImmutableConflict(_) => "OTMP_IMMUTABLE_OBJECT_CONFLICT"@,
        StorageErrorView::UnsafeKey(_) => "OTMP_UNSAFE_URI"@,
        StorageErrorView::MaximumLengthExceeded | StorageErrorView::VerificationFailed(_) =>
            "OTMP_FINGERPRINT_MISMATCH"@,
        StorageErrorView::Io(_) | StorageErrorView::Injected(_) | StorageErrorView::Unsupported(_) =>
            "OTMP_STORAGE_ERROR"@,
    }
}

pub open spec fn storage_error_message(e: StorageErrorView) -> Seq<char> {
    match e {
        StorageErrorView::NotFound(m) => "object not found: "@ + m,
        StorageErrorView::ImmutableConflict(m) => "immutable object already exists: "@ + m,
        StorageErrorView::UnsafeKey(m) => "unsafe object key: "@ + m,
        StorageErrorView::Io(m) => "storage I/O failure: "@ + m,
        StorageErrorView::MaximumLengthExceeded => "source exceeded the declared maximum length"@,
        StorageErrorView::VerificationFailed(m) => "stored object failed exact byte verification: "@
            + m,
        StorageErrorView::Injected(m) => "injected storage failure: "@ + m,
        StorageErrorView::Unsupported(m) => "storage operation is unsupported: "@ + m,
    }
}

pub open spec fn storage_error_retryable(e: StorageErrorView) -> bool {
    e is Io || e is Injected
}

impl StorageError {
    /// The stable code of this failure.
    pub fn code(&self) -> (code: &'static str)
        ensures
            code@ == storage_error_code(self@),
    {
        match self {
            StorageError::NotFound(_) => "OTMP_OBJECT_NOT_FOUND",
            StorageError::ImmutableConflict(_) => "OTMP_IMMUTABLE_OBJECT_CONFLICT",
            StorageError::UnsafeKey(_) => "OTMP_UNSAFE_URI",
            StorageError::MaximumLengthExceeded => "OTMP_FINGERPRINT_MISMATCH",
            StorageError::VerificationFailed(_) => "OTMP_FINGERPRINT_MISMATCH",
            StorageError::Io(_) => "OTMP_STORAGE_ERROR",
            StorageError::Injected(_) => "OTMP_STORAGE_ERROR",
            StorageError::Unsupported(_) => "OTMP_STORAGE_ERROR",
        }
    }

    /// What went wrong, in words.
    pub fn message(&self) -> (message: String)
        ensures
            message@ == storage_error_message(self@),
    {
        match self {
            StorageError::NotFound(m) => joined("object not found: ", m.as_str()),
            StorageError::ImmutableConflict(m) => joined(
                "immutable object already exists: ",
                m.as_str(),
            ),
            StorageError::UnsafeKey(m) => joined("unsafe object key: ", m.as_str()),
            StorageError::Io(m) => joined("storage I/O failure: ", m.as_str()),
            StorageError::MaximumLengthExceeded =>
                "source exceeded the declared maximum length".to_owned(),
            StorageError::VerificationFailed(m) => joined(
                "stored object failed exact byte verification: ",
                m.as_str(),
            ),
            StorageError::Injected(m) => joined("injected storage failure: ", m.as_str()),
            StorageError::Unsupported(m) => joined("storage operation is unsupported: ", m.as_str()),
        }
    }

    /// Whether repeating the operation unchanged may succeed.
    pub fn retryable(&self) -> (retryable: bool)
        ensures
            retryable == storage_error_retryable(self@),
    {
        match self {
            StorageError::Io(_) => true,
            StorageError::Injected(_) => true,
            _ => false,
        }
    }
}

/// A provider's token for one revision of an object.
#[derive(Debug, Eq)]
pub struct ObjectVersion {
    token: String,
}

impl View for ObjectVersion {
    type V = Seq<char>;

    closed spec fn view(&self) -> Seq<char> {
        self.token@
    }
}

impl PartialEq for ObjectVersion {
    fn eq(&self, other: &Self) -> (same: bool) {
        self.token == other.token
    }
}

impl PartialEqSpecImpl for ObjectVersion {
    open spec fn obeys_eq_spec() -> bool {
        true
    }

    open spec fn eq_spec(&self, other: &Self) -> bool {
        self@ == other@
    }
}

impl Clone for ObjectVersion {
    fn clone(&self) -> (copy: Self)
        ensures
            copy@ == self@,
    {
        ObjectVersion { token: self.token.clone() }
    }
}

impl ObjectVersion {
    /// The version of an object that is known by its digest.
    pub fn from_sha256(hash: Sha256) -> (version: Self)
        ensures
            version@ == hex_text(hash@),
    {
        ObjectVersion { token: hash.to_text() }
    }

    /// A version by a provider's own token.
    pub fn from_opaque(token: String) -> (version: Self)
        ensures
            version@ == token@,
    {
        ObjectVersion { token }
    }

    pub fn as_opaque(&self) -> (token: &str)
        ensures
            token@ == self@,
    {
        self.token.as_str()
    }
}

/// The largest request accepted by the authenticated range interface.
pub const MAXIMUM_RANGE_LENGTH: u64 = 67108864;

/// An object with its bytes.
#[derive(Clone, Debug)]
pub struct StoredObject {
    pub bytes: Vec<u8>,
    pub version: ObjectVersion,
}

/// Runtime metadata that pins a bounded read to one object revision.
#[derive(Debug)]
pub struct ObjectMetadata {
    pub length: u64,
    pub version: ObjectVersion,
}

impl Clone for ObjectMetadata {
    fn clone(&self) -> (copy: Self)
        ensures
            copy@ == self@,
    {
        ObjectMetadata { length: self.length, version: self.version.clone() }
    }
}

impl View for ObjectMetadata {
    type V = (u64, Seq<char>);

    open spec fn view(&self) -> (u64, Seq<char>) {
        (self.length, self.version@)
    }
}

impl PartialEq for ObjectMetadata {
    fn eq(&self, other: &Self) -> (same: bool) {
        self.length == other.length && self.version == other.version
    }
}

impl PartialEqSpecImpl for ObjectMetadata {
    open spec fn obeys_eq_spec() -> bool {
        true
    }

    open spec fn eq_spec(&self, other: &Self) -> bool {
        self@ == other@
    }
}

/// An exact bounded object response and the metadata used to authenticate it.
#[derive(Debug)]
pub struct StoredRange {
    pub bytes: Vec<u8>,
    pub range: Range<u64>,
    pub metadata: ObjectMetadata,
}

pub open spec fn verification_failed(message: Seq<char>) -> StorageErrorView {
    StorageErrorView::VerificationFailed(message)
}

/// Whether a range may be asked for in an object of a given length.
pub open spec fn range_check(length: u64, start: u64, end: u64) -> Result<(), StorageErrorView> {
    if end < start {
        Err(verification_failed("range end precedes its start"@))
    } else if end == start || end - start > MAXIMUM_RANGE_LENGTH || end > length {
        Err(verification_failed("range is empty, oversized, or outside the object"@))
    } else {
        Ok(())
    }
}

/// Validates a range before an adapter performs I/O.
pub fn validate_range_request(metadata: &ObjectMetadata, range: &Range<u64>) -> (r: Result<
    (),
    StorageError,
>)
    ensures
        match r {
            Ok(()) => range_check(metadata.length, range.start, range.end) is Ok,
            Err(e) => range_check(metadata.length, range.start, range.end) == Err::<
                (),
                StorageErrorView,
            >(e@),
        },
{
    if range.end < range.start {
        return Err(StorageError::VerificationFailed("range end precedes its start".to_owned()));
    }
    let length: u64 = range.end - range.start;
    if length == 0 || length > MAXIMUM_RANGE_LENGTH || range.end > metadata.length {
        return Err(
            StorageError::VerificationFailed(
                "range is empty, oversized, or outside the object".to_owned(),
            ),
        );
    }
    Ok(())
}

/// Whether a response is exactly what was asked for.
pub open spec fn response_check(
    response: StoredRange,
    expected: ObjectMetadata,
    range: Range<u64>,
) -> Result<(), StorageErrorView> {
    match range_check(expected.length, range.start, range.end) {
        Err(e) => Err(e),
        Ok(()) => if response.metadata@ == expected@ && response.range.start == range.start
            && response.range.end == range.end && response.bytes@.len() == range.end - range.start {
            Ok(())
        } else {
            Err(verification_failed("range response did not match the requested object revision"@))
        },
    }
}

impl StoredRange {
    /// Checks that a provider returned precisely the requested bytes from the
    /// object revision selected by the caller.
    pub fn validate(&self, expected: &ObjectMetadata, range: &Range<u64>) -> (r: Result<
        (),
        StorageError,
    >)
        ensures
            match r {
                Ok(()) => response_check(*self, *expected, *range) is Ok,
                Err(e) => response_check(*self, *expected, *range) == Err::<(), StorageErrorView>(
                    e@,
                ),
            },
    {
        validate_range_request(expected, range)?;
        if !(self.metadata == *expected) || self.range.start != range.start || self.range.end
            != range.end || self.bytes.len() as u64 != range.end - range.start {
            return Err(
                StorageError::VerificationFailed(
                    "range response did not match the requested object revision".to_owned(),
                ),
            );
        }
        Ok(())
    }
}

/// What is known of an object that was just created.
#[derive(Clone, Debug)]
pub struct CreatedObject {
    pub version: ObjectVersion,
    pub sha256: Sha256,
    pub length: u64,
}

#[derive(Clone, Debug)]
pub enum ConditionalWriteOutcome {
    Applied { new_version: ObjectVersion },
    Conflict { current_version: Option<ObjectVersion> },
    Indeterminate { source: StorageError },
}

/// A fault of the next conditional write.
#[derive(Clone, Copy, Debug, PartialEq, Eq, Structural)]
pub enum InjectedConditional {
    Conflict,
    IndeterminateBefore,
    IndeterminateAfter,
}

#[derive(Debug)]
struct MemoryObject {
    key: String,
    bytes: Vec<u8>,
    revision: u64,
}

/// Objects by their keys, each with the revision that wrote it.
#[derive(Debug)]
pub struct InMemoryObjectStore {
    objects: Vec<MemoryObject>,
    next_revision: u64,
    conditional_outcomes: Vec<InjectedConditional>,
    reads: u64,
    listings: u64,
}

/// What one key holds.
pub struct Held {
    pub bytes: Seq<u8>,
    pub revision: u64,
}

/// A store as its contents, its counters and the faults that are due.
pub struct StoreView {
    pub objects: Map<Seq<char>, Held>,
    pub revisions: u64,
    pub faults: Seq<InjectedConditional>,
    pub reads: u64,
    pub listings: u64,
}

spec fn objects_of(objects: Seq<MemoryObject>) -> Map<Seq<char>, Held> {
    Map::new(
        |key: Seq<char>| exists|i: int| 0 <= i < objects.len() && (#[trigger] objects[i]).key@ == key,
        |key: Seq<char>|
            {
                let i = choose|i: int|
                    0 <= i < objects.len() && (#[trigger] objects[i]).key@ == key;
                Held { bytes: objects[i].bytes@, revision: objects[i].revision }
            },
    )
}

impl View for InMemoryObjectStore {
    type V = StoreView;

    closed spec fn view(&self) -> StoreView {
        StoreView {
            objects: objects_of(self.objects@),
            revisions: self.next_revision,
            faults: self.conditional_outcomes@,
            reads: self.reads,
            listings: self.listings,
        }
    }
}

pub open spec fn head_key() -> Seq<char> {
    "_otmp/HEAD"@
}

/// The version by which a whole object is known.
pub open spec fn content_version(bytes: Seq<u8>) -> Seq<char> {
    hex_text(sha256_of(bytes))
}

/// The version by which ranges of an object are pinned.
pub open spec fn range_version(revision: u64) -> Seq<char> {
    "otmp-memory-range-v1:"@ + decimal(revision as nat)
}

/// The version of the head, if there is one.
pub open spec fn head_version(store: StoreView) -> Option<Seq<char>> {
    if store.objects.contains_key(head_key()) {
        Some(content_version(store.objects[head_key()].bytes))
    } else {
        None
    }
}

/// The store after bytes were written under a key.
pub open spec fn written(store: StoreView, key: Seq<char>, bytes: Seq<u8>) -> StoreView {
    let revision = (store.revisions + 1) as u64;
    StoreView {
        objects: store.objects.insert(key, Held { bytes, revision }),
        revisions: revision,
        ..store
    }
}

pub open spec fn without_fault(store: StoreView) -> StoreView {
    if store.faults.len() > 0 {
        StoreView { faults: store.faults.skip(1), ..store }
    } else {
        store
    }
}

pub open spec fn next_fault(store: StoreView) -> Option<InjectedConditional> {
    if store.faults.len() > 0 {
        Some(store.faults[0])
    } else {
        None
    }
}

/// A conditional write takes effect if the head is as expected and no fault
/// keeps it from being tried.
pub open spec fn takes_effect(store: StoreView, expected: Option<Seq<char>>) -> bool {
    &&& next_fault(store) != Some(InjectedConditional::IndeterminateBefore)
    &&& next_fault(store) != Some(InjectedConditional::Conflict)
    &&& head_version(store) == expected
}

pub open spec fn version_view(version: Option<ObjectVersion>) -> Option<Seq<char>> {
    match version {
        None => None,
        Some(version) => Some(version@),
    }
}

/// What a conditional write reports.
pub open spec fn reports(
    outcome: ConditionalWriteOutcome,
    store: StoreView,
    expected: Option<Seq<char>>,
    bytes: Seq<u8>,
) -> bool {
    let fault = next_fault(store);
    if fault == Some(InjectedConditional::IndeterminateBefore) {
        outcome matches ConditionalWriteOutcome::Indeterminate { source } && source@
            == StorageErrorView::Injected("before conditional write"@)
    } else if head_version(store) != expected || fault == Some(InjectedConditional::Conflict) {
        outcome matches ConditionalWriteOutcome::Conflict { current_version } && version_view(
            current_version,
        ) == head_version(store)
    } else if fault == Some(InjectedConditional::IndeterminateAfter) {
        outcome matches ConditionalWriteOutcome::Indeterminate { source } && source@
            == StorageErrorView::Injected("after conditional write"@)
    } else {
        outcome matches ConditionalWriteOutcome::Applied { new_version } && new_version@
            == content_version(bytes)
    }
}

impl InMemoryObjectStore {
    /// Each key is held once, and no revision is above the last one given out.
    pub closed spec fn wf(&self) -> bool {
        &&& forall|i: int, j: int|
            #![trigger self.objects@[i], self.objects@[j]]
            0 <= i < j < self.objects@.len() ==> self.objects@[i].key@ != self.objects@[j].key@
        &&& forall|i: int|
            0 <= i < self.objects@.len() ==> (#[trigger] self.objects@[i]).revision
                <= self.next_revision
        &&& forall|i: int, j: int|
            #![trigger self.objects@[i], self.objects@[j]]
            0 <= i < j < self.objects@.len() ==> self.objects@[i].revision
                != self.objects@[j].revision
    }

    proof fn lemma_held(&self, i: int)
        requires
            self.wf(),
            0 <= i < self.objects@.len(),
        ensures
            self@.objects.contains_key(self.objects@[i].key@),
            self@.objects[self.objects@[i].key@] == (Held {
                bytes: self.objects@[i].bytes@,
                revision: self.objects@[i].revision,
            }),
    {
        let key = self.objects@[i].key@;
        let k = choose|k: int|
            0 <= k < self.objects@.len() && (#[trigger] self.objects@[k]).key@ == key;
        assert(self.objects@[i].key@ == key);
        assert(k == i);
    }

    /// No object has a revision above the last one given out.
    pub proof fn lemma_revision_bound(&self, key: Seq<char>)
        requires
            self.wf(),
            self@.objects.contains_key(key),
        ensures
            self@.objects[key].revision <= self@.revisions,
    {
        let i = choose|i: int|
            0 <= i < self.objects@.len() && (#[trigger] self.objects@[i]).key@ == key;
        self.lemma_held(i);
    }

    pub fn new() -> (store: Self)
        ensures
            store.wf(),
            store@ == (StoreView {
                objects: Map::empty(),
                revisions: 0,
                faults: Seq::empty(),
                reads: 0,
                listings: 0,
            }),
    {
        let store = InMemoryObjectStore {
            objects: Vec::new(),
            next_revision: 0,
            conditional_outcomes: Vec::new(),
            reads: 0,
            listings: 0,
        };
        assert(store@.objects =~= Map::empty());
        assert(store@.faults =~= Seq::empty());
        store
    }

    fn find(&self, key: &String) -> (at: Option<usize>)
        requires
            self.wf(),
        ensures
            match at {
                Some(i) => i < self.objects@.len() && self.objects@[i as int].key@ == key@
                    && self@.objects.contains_key(key@) && self@.objects[key@] == (Held {
                    bytes: self.objects@[i as int].bytes@,
                    revision: self.objects@[i as int].revision,
                }),
                None => !self@.objects.contains_key(key@),
            },
    {
        let mut i: usize = 0;
        while i < self.objects.len()
            invariant
                self.wf(),
                i <= self.objects@.len(),
                forall|k: int| 0 <= k < i ==> (#[trigger] self.objects@[k]).key@ != key@,
            decreases self.objects@.len() - i,
        {
            if self.objects[i].key == *key {
                proof {
                    self.lemma_held(i as int);
                }
                return Some(i);
            }
            i = i + 1;
        }
        None
    }

    /// Writes bytes under a key, whatever it held.
    fn put(&mut self, key: String, bytes: Vec<u8>)
        requires
            old(self).wf(),
            old(self)@.revisions < u64::MAX,
        ensures
            final(self).wf(),
            final(self)@ == written(old(self)@, key@, bytes@),
    {
        let at = self.find(&key);
        let revision: u64 = self.next_revision + 1;
        let ghost before = *self;
        let ghost text = key@;
        let ghost data = bytes@;
        self.next_revision = revision;
        match at {
            Some(i) => {
                self.objects.set(i, MemoryObject { key, bytes, revision });
                proof {
                    assert(self.wf());
                    assert forall|k: Seq<char>| before@.objects.contains_key(k)
                        == #[trigger] self@.objects.contains_key(k) by {
                        if before@.objects.contains_key(k) {
                            let j = choose|j: int|
                                0 <= j < before.objects@.len() && (
                                #[trigger] before.objects@[j]).key@ == k;
                            self.lemma_held(j);
                        }
                        if self@.objects.contains_key(k) {
                            let j = choose|j: int|
                                0 <= j < self.objects@.len() && (
                                #[trigger] self.objects@[j]).key@ == k;
                            before.lemma_held(j);
                        }
                    }
                    assert forall|k: Seq<char>| #[trigger] self@.objects.contains_key(
                        k,
                    ) implies self@.objects[k] == written(before@, text, data).objects[k] by {
                        let j = choose|j: int|
                            0 <= j < self.objects@.len() && (#[trigger] self.objects@[j]).key@ == k;
                        self.lemma_held(j);
                        before.lemma_held(j);
                    }
                }
            },
            None => {
                self.objects.push(MemoryObject { key, bytes, revision });
                proof {
                    assert forall|i: int| 0 <= i < before.objects@.len() implies (
                    #[trigger] self.objects@[i]).key@ != text && self.objects@[i]
                        == before.objects@[i] by {
                        before.lemma_held(i);
                    }
                    assert(self.wf());
                    assert forall|k: Seq<char>| #[trigger]
                        self@.objects.contains_key(k) <==> before@.objects.contains_key(k) || k
                            == text by {
                        if before@.objects.contains_key(k) {
                            let j = choose|j: int|
                                0 <= j < before.objects@.len() && (
                                #[trigger] before.objects@[j]).key@ == k;
                            self.lemma_held(j);
                        }
                        if self@.objects.contains_key(k) {
                            let j = choose|j: int|
                                0 <= j < self.objects@.len() && (
                                #[trigger] self.objects@[j]).key@ == k;
                            if j < before.objects@.len() {
                                before.lemma_held(j);
                            }
                        }
                        if k == text {
                            self.lemma_held(before.objects@.len() as int);
                        }
                    }
                    assert forall|k: Seq<char>| #[trigger] self@.objects.contains_key(
                        k,
                    ) implies self@.objects[k] == written(before@, text, data).objects[k] by {
                        let j = choose|j: int|
                            0 <= j < self.objects@.len() && (#[trigger] self.objects@[j]).key@ == k;
                        self.lemma_held(j);
                        if j < before.objects@.len() {
                            before.lemma_held(j);
                        }
                    }
                }
            },
        }
        assert(self@.objects =~= written(before@, text, data).objects);
    }

    /// Makes the next conditional write that has no fault yet meet this one.
    pub fn inject_conditional(&mut self, outcome: InjectedConditional)
        requires
            old(self).wf(),
        ensures
            final(self).wf(),
            final(self)@ == (StoreView { faults: old(self)@.faults.push(outcome), ..old(self)@ }),
    {
        self.conditional_outcomes.push(outcome);
    }

    /// Replaces bytes without observing immutability, solely for corruption tests.
    pub fn replace_object_for_test(&mut self, key: &String, bytes: Vec<u8>)
        requires
            old(self).wf(),
            old(self)@.revisions < u64::MAX,
        ensures
            final(self).wf(),
            final(self)@ == written(old(self)@, key@, bytes@),
    {
        self.put(key.clone(), bytes);
    }

    pub fn read_count(&self) -> (n: u64)
        ensures
            n == self@.reads,
    {
        self.reads
    }

    pub fn listing_count(&self) -> (n: u64)
        ensures
            n == self@.listings,
    {
        self.listings
    }

    fn conditional(&mut self, expected: Option<&ObjectVersion>, bytes: &[u8]) -> (outcome:
        ConditionalWriteOutcome)
        requires
            old(self).wf(),
            old(self)@.revisions < u64::MAX,
        ensures
            final(self).wf(),
            reports(
                outcome,
                old(self)@,
                match expected {
                    None => None,
                    Some(version) => Some(version@),
                },
                bytes@,
            ),
            final(self)@ == if takes_effect(
                old(self)@,
                match expected {
                    None => None,
                    Some(version) => Some(version@),
                },
            ) {
                written(without_fault(old(self)@), head_key(), bytes@)
            } else {
                without_fault(old(self)@)
            },
    {
        let ghost before = self@;
        let fault: Option<InjectedConditional> = if self.conditional_outcomes.len() > 0 {
            let first = self.conditional_outcomes.remove(0);
            assert(self.conditional_outcomes@ =~= before.faults.skip(1));
            Some(first)
        } else {
            None
        };
        assert(self@ == without_fault(before));
        let key = "_otmp/HEAD".to_owned();
        let current: Option<ObjectVersion> = match self.find(&key) {
            None => None,
            Some(i) => Some(
                ObjectVersion::from_sha256(Sha256::digest(self.objects[i].bytes.as_slice())),
            ),
        };
        if fault == Some(InjectedConditional::IndeterminateBefore) {
            return ConditionalWriteOutcome::Indeterminate {
                source: StorageError::Injected("before conditional write".to_owned()),
            };
        }
        let as_expected: bool = match (&current, expected) {
            (None, None) => true,
            (Some(current), Some(expected)) => *current == *expected,
            _ => false,
        };
        if !as_expected || fault == Some(InjectedConditional::Conflict) {
            return ConditionalWriteOutcome::Conflict { current_version: current };
        }
        let copy: Vec<u8> = copy_range(bytes, 0, bytes.len());
        assert(copy@ =~= bytes@);
        self.put(key, copy);
        if fault == Some(InjectedConditional::IndeterminateAfter) {
            ConditionalWriteOutcome::Indeterminate {
                source: StorageError::Injected("after conditional write".to_owned()),
            }
        } else {
            ConditionalWriteOutcome::Applied {
                new_version: ObjectVersion::from_sha256(Sha256::digest(bytes)),
            }
        }
    }

    /// Creates the head, if there is none.
    pub fn create_head(&mut self, bytes: &[u8]) -> (outcome: ConditionalWriteOutcome)
        requires
            old(self).wf(),
            old(self)@.revisions < u64::MAX,
        ensures
            final(self).wf(),
            reports(outcome, old(self)@, None, bytes@),
            final(self)@ == if takes_effect(old(self)@, None) {
                written(without_fault(old(self)@), head_key(), bytes@)
            } else {
                without_fault(old(self)@)
            },
    {
        self.conditional(None, bytes)
    }

    /// Replaces the head, if it has the expected version.
    pub fn replace_head(&mut self, expected: &ObjectVersion, bytes: &[u8]) -> (outcome:
        ConditionalWriteOutcome)
        requires
            old(self).wf(),
            old(self)@.revisions < u64::MAX,
        ensures
            final(self).wf(),
            reports(outcome, old(self)@, Some(expected@), bytes@),
            final(self)@ == if takes_effect(old(self)@, Some(expected@)) {
                written(without_fault(old(self)@), head_key(), bytes@)
            } else {
                without_fault(old(self)@)
            },
    {
        self.conditional(Some(expected), bytes)
    }

    /// The object under a key. Every read counts, also one of nothing.
    pub fn read(&mut self, key: &String) -> (r: Result<StoredObject, StorageError>)
        requires
            old(self).wf(),
            old(self)@.reads < u64::MAX,
        ensures
            final(self).wf(),
            final(self)@ == (StoreView { reads: (old(self)@.reads + 1) as u64, ..old(self)@ }),
            match r {
                Ok(object) => {
                    &&& old(self)@.objects.contains_key(key@)
                    &&& object.bytes@ == old(self)@.objects[key@].bytes
                    &&& object.version@ == content_version(object.bytes@)
                },
                Err(e) => !old(self)@.objects.contains_key(key@) && e@
                    == StorageErrorView::NotFound(key@),
            },
    {
        self.reads = self.reads + 1;
        match self.find(key) {
            None => Err(StorageError::NotFound(key.clone())),
            Some(i) => {
                let held = &self.objects[i].bytes;
                let bytes: Vec<u8> = copy_range(held.as_slice(), 0, held.len());
                assert(bytes@ =~= held@);
                let version = ObjectVersion::from_sha256(Sha256::digest(bytes.as_slice()));
                Ok(StoredObject { bytes, version })
            },
        }
    }

    /// The length of an object and the version that pins ranges of it.
    pub fn stat(&self, key: &String) -> (r: Result<ObjectMetadata, StorageError>)
        requires
            self.wf(),
        ensures
            match r {
                Ok(metadata) => {
                    &&& self@.objects.contains_key(key@)
                    &&& metadata.length == self@.objects[key@].bytes.len()
                    &&& metadata.version@ == range_version(self@.objects[key@].revision)
                },
                Err(e) => !self@.objects.contains_key(key@) && e@ == StorageErrorView::NotFound(
                    key@,
                ),
            },
    {
        match self.find(key) {
            None => Err(StorageError::NotFound(key.clone())),
            Some(i) => {
                let mut token = "otmp-memory-range-v1:".to_owned();
                append_decimal(&mut token, self.objects[i].revision);
                Ok(
                    ObjectMetadata {
                        length: self.objects[i].bytes.len() as u64,
                        version: ObjectVersion::from_opaque(token),
                    },
                )
            },
        }
    }

    /// A range of an object, if it still is the revision that the caller pinned.
    pub fn read_range(&self, key: &String, range: Range<u64>, expected: &ObjectMetadata) -> (r:
        Result<StoredRange, StorageError>)
        requires
            self.wf(),
        ensures
            match r {
                Ok(response) => {
                    &&& range_check(expected.length, range.start, range.end) is Ok
                    &&& pinned(self@, key@, *expected)
                    &&& response.range == range
                    &&& response.metadata@ == expected@
                    &&& response.bytes@ == self@.objects[key@].bytes.subrange(
                        range.start as int,
                        range.end as int,
                    )
                },
                Err(e) => if range_check(expected.length, range.start, range.end) is Err {
                    range_check(expected.length, range.start, range.end) == Err::<
                        (),
                        StorageErrorView,
                    >(e@)
                } else if !self@.objects.contains_key(key@) {
                    e@ == StorageErrorView::NotFound(key@)
                } else {
                    &&& !pinned(self@, key@, *expected)
                    &&& e@ == verification_failed(
                        "in-memory object version changed before range read"@,
                    )
                },
            },
    {
        validate_range_request(expected, &range)?;
        let actual = self.stat(key)?;
        if !(actual == *expected) {
            return Err(
                StorageError::VerificationFailed(
                    "in-memory object version changed before range read".to_owned(),
                ),
            );
        }
        let at = self.find(key);
        let i: usize = at.unwrap();
        let held = &self.objects[i].bytes;
        let total: usize = held.len();
        let start: usize = range.start as usize;
        let end: usize = range.end as usize;
        let bytes: Vec<u8> = copy_range(held.as_slice(), start, end);
        Ok(StoredRange { bytes, range, metadata: actual })
    }

    /// Creates an object. An object that is there is never replaced.
    pub fn create(&mut self, key: &String, bytes: Vec<u8>, maximum_length: Option<u64>) -> (r:
        Result<CreatedObject, StorageError>)
        requires
            old(self).wf(),
            old(self)@.revisions < u64::MAX,
        ensures
            final(self).wf(),
            match r {
                Ok(created) => {
                    &&& !old(self)@.objects.contains_key(key@)
                    &&& maximum_length matches Some(maximum) ==> bytes@.len() <= maximum
                    &&& final(self)@ == written(old(self)@, key@, bytes@)
                    &&& created.version@ == content_version(bytes@)
                    &&& created.sha256@ == sha256_of(bytes@)
                    &&& created.length == bytes@.len()
                },
                Err(e) => {
                    &&& final(self)@ == old(self)@
                    &&& if old(self)@.objects.contains_key(key@) {
                        e@ == StorageErrorView::ImmutableConflict(key@)
                    } else {
                        &&& e@ == StorageErrorView::MaximumLengthExceeded
                        &&& maximum_length matches Some(maximum) && bytes@.len() > maximum
                    }
                },
            },
    {
        if self.find(key).is_some() {
            return Err(StorageError::ImmutableConflict(key.clone()));
        }
        if let Some(maximum) = maximum_length {
            if bytes.len() as u64 > maximum {
                return Err(StorageError::MaximumLengthExceeded);
            }
        }
        let sha256 = Sha256::digest(bytes.as_slice());
        let length: u64 = bytes.len() as u64;
        self.put(key.clone(), bytes);
        Ok(CreatedObject { version: ObjectVersion::from_sha256(sha256), sha256, length })
    }

    /// Removes an object, if it has the given content version.
    pub fn delete_if_version(&mut self, key: &String, version: &ObjectVersion) -> (r: Result<
        bool,
        StorageError,
    >)
        requires
            old(self).wf(),
        ensures
            final(self).wf(),
            r is Ok,
            r->Ok_0 == (old(self)@.objects.contains_key(key@) && content_version(
                old(self)@.objects[key@].bytes,
            ) == version@),
            final(self)@ == if r->Ok_0 {
                StoreView { objects: old(self)@.objects.remove(key@), ..old(self)@ }
            } else {
                old(self)@
            },
    {
        match self.find(key) {
            None => Ok(false),
            Some(i) => {
                let actual = ObjectVersion::from_sha256(
                    Sha256::digest(self.objects[i].bytes.as_slice()),
                );
                if !(actual == *version) {
                    return Ok(false);
                }
                let ghost before = *self;
                self.objects.remove(i);
                proof {
                    let gone = i as int;
                    assert forall|j: int| 0 <= j < self.objects@.len() implies (
                    #[trigger] self.objects@[j]) == before.objects@[if j < gone {
                        j
                    } else {
                        j + 1
                    }] by {}
                    assert(self.wf());
                    assert forall|k: Seq<char>| #[trigger]
                        self@.objects.contains_key(k) <==> before@.objects.contains_key(k) && k
                            != key@ by {
                        if before@.objects.contains_key(k) && k != key@ {
                            let j = choose|j: int|
                                0 <= j < before.objects@.len() && (
                                #[trigger] before.objects@[j]).key@ == k;
                            self.lemma_held(
                                if j < gone {
                                    j
                                } else {
                                    j - 1
                                },
                            );
                        }
                        if self@.objects.contains_key(k) {
                            let j = choose|j: int|
                                0 <= j < self.objects@.len() && (
                                #[trigger] self.objects@[j]).key@ == k;
                            let at = if j < gone {
                                j
                            } else {
                                j + 1
                            };
                            before.lemma_held(at);
                            assert(before.objects@[at].key@ != before.objects@[gone].key@);
                        }
                    }
                    assert forall|k: Seq<char>| #[trigger] self@.objects.contains_key(
                        k,
                    ) implies self@.objects[k] == before@.objects[k] by {
                        let j = choose|j: int|
                            0 <= j < self.objects@.len() && (#[trigger] self.objects@[j]).key@ == k;
                        self.lemma_held(j);
                        before.lemma_held(
                            if j < gone {
                                j
                            } else {
                                j + 1
                            },
                        );
                    }
                    assert(self@.objects =~= before@.objects.remove(key@));
                }
                Ok(true)
            },
        }
    }

    /// Reads an object back and compares its length and digest.
    pub fn confirm_readable(&mut self, key: &String, sha256: Sha256, length: u64) -> (r: Result<
        ObjectVersion,
        StorageError,
    >)
        requires
            old(self).wf(),
            old(self)@.reads < u64::MAX,
        ensures
            final(self).wf(),
            final(self)@ == (StoreView { reads: (old(self)@.reads + 1) as u64, ..old(self)@ }),
            match r {
                Ok(version) => {
                    &&& old(self)@.objects.contains_key(key@)
                    &&& old(self)@.objects[key@].bytes.len() == length
                    &&& sha256_of(old(self)@.objects[key@].bytes) == sha256@
                    &&& version@ == hex_text(sha256@)
                },
                Err(e) => if old(self)@.objects.contains_key(key@) {
                    &&& e@ == verification_failed("object verification failed for "@ + key@)
                    &&& old(self)@.objects[key@].bytes.len() != length || sha256_of(
                        old(self)@.objects[key@].bytes,
                    ) != sha256@
                } else {
                    e@ == StorageErrorView::NotFound(key@)
                },
            },
    {
        let object = self.read(key)?;
        confirm(key, object, sha256, length)
    }
}

/// Whether a key still holds the revision that the metadata was taken from.
pub open spec fn pinned(store: StoreView, key: Seq<char>, expected: ObjectMetadata) -> bool {
    &&& store.objects.contains_key(key)
    &&& store.objects[key].bytes.len() == expected.length
    &&& range_version(store.objects[key].revision) == expected.version@
}

/// Checks an object that was read back against its length and digest.
pub fn confirm(key: &String, object: StoredObject, sha256: Sha256, length: u64) -> (r: Result<
    ObjectVersion,
    StorageError,
>)
    ensures
        match r {
            Ok(version) => {
                &&& object.bytes@.len() == length
                &&& sha256_of(object.bytes@) == sha256@
                &&& version@ == object.version@
            },
            Err(e) => {
                &&& object.bytes@.len() != length || sha256_of(object.bytes@) != sha256@
                &&& e@ == verification_failed("object verification failed for "@ + key@)
            },
        },
{
    if object.bytes.len() as u64 != length || !sha256.matches(object.bytes.as_slice()) {
        return Err(
            StorageError::VerificationFailed(
                joined("object verification failed for ", key.as_str()),
            ),
        );
    }
    Ok(object.version)
}

/// What is written is read back, and other keys are left alone.
pub proof fn lemma_read_after_write(
    store: StoreView,
    key: Seq<char>,
    bytes: Seq<u8>,
    other: Seq<char>,
)
    ensures
        written(store, key, bytes).objects.contains_key(key),
        written(store, key, bytes).objects[key].bytes == bytes,
        other != key ==> written(store, key, bytes).objects.contains_key(other)
            == store.objects.contains_key(other),
        other != key && store.objects.contains_key(other) ==> written(
            store,
            key,
            bytes,
        ).objects[other] == store.objects[other],
{
}

/// Of two conditional writes that expect one version of the head, the second
/// takes no effect after the first did, unless both contents have one digest.
pub proof fn lemma_one_winner(
    store: StoreView,
    expected: Option<Seq<char>>,
    first: Seq<u8>,
)
    requires
        takes_effect(store, expected),
        expected != Some(content_version(first)),
    ensures
        !takes_effect(written(without_fault(store), head_key(), first), expected),
{
}

/// A write gives the key a revision that no metadata taken before pins.
pub proof fn lemma_write_unpins(
    store: StoreView,
    key: Seq<char>,
    bytes: Seq<u8>,
    earlier: ObjectMetadata,
)
    requires
        store.revisions < u64::MAX,
        pinned(store, key, earlier),
        store.objects[key].revision <= store.revisions,
    ensures
        !pinned(written(store, key, bytes), key, earlier),
{
    let prefix = "otmp-memory-range-v1:"@;
    let old_revision = store.objects[key].revision;
    let new_revision = (store.revisions + 1) as u64;
    if range_version(old_revision) == range_version(new_revision) {
        let a = range_version(old_revision);
        let b = range_version(new_revision);
        assert(a.skip(prefix.len() as int) =~= decimal(old_revision as nat));
        assert(b.skip(prefix.len() as int) =~= decimal(new_revision as nat));
        lemma_decimal_injective(old_revision as nat, new_revision as nat);
    }
}

/// A step on the head of a store: a fault for a later write, or a conditional
/// write.
pub enum HeadStep {
    Inject(InjectedConditional),
    Write { expected: Option<Seq<char>>, bytes: Seq<u8> },
}

/// The store after a step.
pub open spec fn after_step(store: StoreView, step: HeadStep) -> StoreView {
    match step {
        HeadStep::Inject(fault) => StoreView { faults: store.faults.push(fault), ..store },
        HeadStep::Write { expected, bytes } => if takes_effect(store, expected) {
            written(without_fault(store), head_key(), bytes)
        } else {
            without_fault(store)
        },
    }
}

/// The store after steps in their order.
pub open spec fn after_steps(store: StoreView, steps: Seq<HeadStep>) -> StoreView
    decreases steps.len(),
{
    if steps.len() == 0 {
        store
    } else {
        after_step(after_steps(store, steps.drop_last()), steps.last())
    }
}

/// The faults that the steps inject, in their order.
pub open spec fn injected(steps: Seq<HeadStep>) -> Seq<InjectedConditional>
    decreases steps.len(),
{
    if steps.len() == 0 {
        Seq::empty()
    } else {
        let before = injected(steps.drop_last());
        match steps.last() {
            HeadStep::Inject(fault) => before.push(fault),
            HeadStep::Write { .. } => before,
        }
    }
}

/// The faults that the writes among the steps meet, in their order.
pub open spec fn met(store: StoreView, steps: Seq<HeadStep>) -> Seq<InjectedConditional>
    decreases steps.len(),
{
    if steps.len() == 0 {
        Seq::empty()
    } else {
        let before = met(store, steps.drop_last());
        match (steps.last(), next_fault(after_steps(store, steps.drop_last()))) {
            (HeadStep::Write { .. }, Some(fault)) => before.push(fault),
            _ => before,
        }
    }
}

/// Faults are met in the order in which they were injected, each by one write:
/// what was met and what still waits are all faults, in their order.
pub proof fn lemma_faults_are_met_in_order(store: StoreView, steps: Seq<HeadStep>)
    ensures
        met(store, steps) + after_steps(store, steps).faults == store.faults + injected(steps),
    decreases steps.len(),
{
    if steps.len() == 0 {
        assert(met(store, steps) + store.faults =~= store.faults + injected(steps));
    } else {
        let front = steps.drop_last();
        lemma_faults_are_met_in_order(store, front);
        let before = after_steps(store, front);
        let after = after_steps(store, steps);
        match steps.last() {
            HeadStep::Inject(fault) => {
                assert(met(store, steps) + after.faults =~= (met(store, front) + before.faults).push(
                    fault,
                ));
                assert(store.faults + injected(steps) =~= (store.faults + injected(front)).push(
                    fault,
                ));
            },
            HeadStep::Write { .. } => {
                if before.faults.len() > 0 {
                    assert(before.faults =~= seq![before.faults[0]] + before.faults.skip(1));
                    assert(met(store, steps) + after.faults =~= met(store, front) + before.faults);
                }
            },
        }
    }
}

} // verus!

//! Page maps: which pack holds which page of an image.
use crate::hash::{hex_text, sha256_of, Sha256};
use std::sync::Arc;
use vstd::prelude::*;
use vstd::std_specs::cmp::PartialEqSpecImpl;
use vstd::string::*;

verus! {

/// Most entries of one node.
pub const CAPACITY: usize = 128;

#[derive(Clone, Copy, Debug, PartialEq, Eq, Structural)]
pub enum PageCodec {
    /// The page's own bytes.
    Plain,
    Zstd,
}

/// An immutable object by address, digest and length.
#[derive(Debug, Eq)]
pub struct PageObjectReference {
    pub uri: String,
    pub sha256: Sha256,
    pub length: u64,
}

/// A reference with its address taken as characters.
pub struct ReferenceView {
    pub uri: Seq<char>,
    pub sha256: Sha256,
    pub length: u64,
}

impl View for PageObjectReference {
    type V = ReferenceView;

    open spec fn view(&self) -> ReferenceView {
        ReferenceView { uri: self.uri@, sha256: self.sha256, length: self.length }
    }
}

impl PartialEq for PageObjectReference {
    fn eq(&self, other: &Self) -> (same: bool) {
        self.uri == other.uri && self.sha256 == other.sha256 && self.length == other.length
    }
}

impl PartialEqSpecImpl for PageObjectReference {
    open spec fn obeys_eq_spec() -> bool {
        true
    }

    open spec fn eq_spec(&self, other: &Self) -> bool {
        self@ == other@
    }
}

impl Clone for PageObjectReference {
    fn clone(&self) -> (copy: Self)
        ensures
            copy == *self,
    {
        PageObjectReference { uri: self.uri.clone(), sha256: self.sha256, length: self.length }
    }
}

/// Where one page of the image is stored.
#[derive(Debug)]
pub struct PageMapEntry {
    pub page_number: u64,
    pub pack: PageObjectReference,
    pub offset: u64,
    pub stored_length: u32,
    pub raw_length: u32,
    pub codec: PageCodec,
    pub page_sha256: Sha256,
}

impl Clone for PageMapEntry {
    fn clone(&self) -> (copy: Self)
        ensures
            copy == *self,
    {
        PageMapEntry {
            page_number: self.page_number,
            pack: self.pack.clone(),
            offset: self.offset,
            stored_length: self.stored_length,
            raw_length: self.raw_length,
            codec: self.codec,
            page_sha256: self.page_sha256,
        }
    }
}

/// A subtree by its largest page and its root object.
#[derive(Debug)]
pub struct PageMapBranch {
    pub max_page: u64,
    pub child: PageObjectReference,
}

impl Clone for PageMapBranch {
    fn clone(&self) -> (copy: Self)
        ensures
            copy == *self,
    {
        PageMapBranch { max_page: self.max_page, child: self.child.clone() }
    }
}

#[derive(Debug)]
pub enum PageMapNode {
    Leaf { entries: Vec<PageMapEntry> },
    Internal { level: u32, entries: Vec<PageMapBranch> },
}

impl PageMapNode {
    pub open spec fn spec_level(&self) -> u32 {
        match *self {
            PageMapNode::Leaf { .. } => 0,
            PageMapNode::Internal { level, .. } => level,
        }
    }

    pub fn level(&self) -> (level: u32)
        ensures
            level == self.spec_level(),
    {
        match self {
            PageMapNode::Leaf { .. } => 0,
            PageMapNode::Internal { level, .. } => *level,
        }
    }

    /// The largest page that the node covers, if it has an entry.
    pub open spec fn spec_max_page(&self) -> Option<u64> {
        match *self {
            PageMapNode::Leaf { entries } => if entries@.len() == 0 {
                None
            } else {
                Some(entries@.last().page_number)
            },
            PageMapNode::Internal { entries, .. } => if entries@.len() == 0 {
                None
            } else {
                Some(entries@.last().max_page)
            },
        }
    }

    pub fn max_page(&self) -> (max: Option<u64>)
        ensures
            max == self.spec_max_page(),
    {
        match self {
            PageMapNode::Leaf { entries } => if entries.len() == 0 {
                None
            } else {
                Some(entries[entries.len() - 1].page_number)
            },
            PageMapNode::Internal { entries, .. } => if entries.len() == 0 {
                None
            } else {
                Some(entries[entries.len() - 1].max_page)
            },
        }
    }
}

/// The root of a page map.
#[derive(Debug)]
pub struct PageMapRoot {
    pub uri: String,
    pub sha256: Sha256,
    pub length: u64,
    pub height: u32,
}

impl Clone for PageMapRoot {
    fn clone(&self) -> (copy: Self)
        ensures
            copy == *self,
    {
        PageMapRoot {
            uri: self.uri.clone(),
            sha256: self.sha256,
            length: self.length,
            height: self.height,
        }
    }
}

impl PageMapRoot {
    pub open spec fn spec_reference(&self) -> ReferenceView {
        ReferenceView { uri: self.uri@, sha256: self.sha256, length: self.length }
    }

    pub fn reference(&self) -> (reference: PageObjectReference)
        ensures
            reference.uri == self.uri,
            reference@ == self.spec_reference(),
    {
        PageObjectReference { uri: self.uri.clone(), sha256: self.sha256, length: self.length }
    }
}

/// The address of an object that is stored under its own digest.
pub open spec fn content_uri(prefix: Seq<char>, suffix: Seq<char>, bytes: Seq<u8>) -> Seq<char> {
    prefix + hex_text(sha256_of(bytes)) + suffix
}

/// Whether `r` refers to `bytes` stored under their own digest.
pub open spec fn refers_to(
    r: ReferenceView,
    prefix: Seq<char>,
    suffix: Seq<char>,
    bytes: Seq<u8>,
) -> bool {
    &&& r.uri == content_uri(prefix, suffix, bytes)
    &&& r.sha256@ == sha256_of(bytes)
    &&& r.length == bytes.len()
}

/// The reference to `bytes` stored under their own digest.
pub fn content_reference(prefix: &str, suffix: &str, bytes: &[u8]) -> (r: PageObjectReference)
    ensures
        refers_to(r@, prefix@, suffix@, bytes@),
{
    let sha256 = Sha256::digest(bytes);
    let text = sha256.to_text();
    let mut uri = prefix.to_owned();
    uri.append(text.as_str());
    uri.append(suffix);
    PageObjectReference { uri, sha256, length: bytes.len() as u64 }
}

/// An object to be published under its address.
#[derive(Debug)]
pub struct Artifact {
    pub uri: String,
    pub bytes: Vec<u8>,
}

/// Objects to be published, one for each address.
#[derive(Debug)]
pub struct Artifacts {
    items: Vec<Artifact>,
}

impl View for Artifacts {
    type V = Map<Seq<char>, Seq<u8>>;

    closed spec fn view(&self) -> Map<Seq<char>, Seq<u8>> {
        Map::new(
            |uri: Seq<char>| exists|i: int| 0 <= i < self.items@.len() && self.items@[i].uri@ == uri,
            |uri: Seq<char>|
                self.items@[choose|i: int|
                    0 <= i < self.items@.len() && self.items@[i].uri@ == uri].bytes@,
        )
    }
}

impl Artifacts {
    pub closed spec fn wf(&self) -> bool {
        forall|i: int, j: int|
            #![trigger self.items@[i], self.items@[j]]
            0 <= i < j < self.items@.len() ==> self.items@[i].uri@ != self.items@[j].uri@
    }

    /// The objects in the order in which their addresses first came up.
    pub closed spec fn listed(&self) -> Seq<Artifact> {
        self.items@
    }

    pub proof fn lemma_listed(&self)
        requires
            self.wf(),
        ensures
            forall|i: int|
                0 <= i < self.listed().len() ==> self@.contains_key(
                    (#[trigger] self.listed()[i]).uri@,
                ) && self@[self.listed()[i].uri@] == self.listed()[i].bytes@,
            forall|uri: Seq<char>| #[trigger]
                self@.contains_key(uri) ==> exists|i: int|
                    0 <= i < self.listed().len() && #[trigger] self.listed()[i].uri@ == uri,
    {
        assert forall|uri: Seq<char>| #[trigger] self@.contains_key(uri) implies exists|i: int|
            0 <= i < self.listed().len() && #[trigger] self.listed()[i].uri@ == uri by {
            let k = choose|k: int|
                0 <= k < self.items@.len() && #[trigger] self.items@[k].uri@ == uri;
            assert(self.listed()[k].uri@ == uri);
        }
    }

    pub fn new() -> (a: Self)
        ensures
            a.wf(),
            a@ == Map::<Seq<char>, Seq<u8>>::empty(),
    {
        let a = Artifacts { items: Vec::new() };
        assert(a@ =~= Map::<Seq<char>, Seq<u8>>::empty());
        a
    }

    pub fn len(&self) -> (n: usize)
        ensures
            n == self.listed().len(),
    {
        self.items.len()
    }

    pub fn into_vec(self) -> (items: Vec<Artifact>)
        ensures
            items@ == self.listed(),
    {
        self.items
    }

    /// Adds an object, in place of any with the same address.
    pub fn insert(&mut self, artifact: Artifact)
        requires
            old(self).wf(),
        ensures
            final(self).wf(),
            final(self)@ == old(self)@.insert(artifact.uri@, artifact.bytes@),
    {
        let mut i: usize = 0;
        while i < self.items.len()
            invariant
                i <= self.items@.len(),
                *self == *old(self),
                self.wf(),
                forall|j: int| 0 <= j < i ==> #[trigger] self.items@[j].uri@ != artifact.uri@,
            decreases self.items@.len() - i,
        {
            if self.items[i].uri == artifact.uri {
                let ghost uri = artifact.uri@;
                let ghost bytes = artifact.bytes@;
                let ghost before = self.items@;
                self.items[i] = artifact;
                proof {
                    assert(self.items@ == before.update(i as int, self.items@[i as int]));
                    assert(self.items@[i as int].uri@ == uri);
                    assert forall|u: Seq<char>| old(self)@.insert(uri, bytes).contains_key(
                        u,
                    ) implies #[trigger] self@.contains_key(u) by {
                        if u != uri {
                            let k = choose|k: int|
                                0 <= k < before.len() && #[trigger] before[k].uri@ == u;
                            assert(self.items@[k].uri@ == u);
                        }
                    }
                    assert forall|u: Seq<char>| #[trigger] self@.contains_key(u) implies old(
                        self,
                    )@.insert(uri, bytes).contains_key(u) by {
                        let k = choose|k: int|
                            0 <= k < self.items@.len() && #[trigger] self.items@[k].uri@ == u;
                        if k != i {
                            assert(before[k].uri@ == u);
                        }
                    }
                    assert forall|u: Seq<char>| #[trigger] self@.contains_key(u) implies self@[u]
                        == old(self)@.insert(uri, bytes)[u] by {
                        let k = choose|k: int|
                            0 <= k < self.items@.len() && #[trigger] self.items@[k].uri@ == u;
                        if u != uri {
                            assert(before[k].uri@ == u);
                        }
                    }
                    assert(self@ =~= old(self)@.insert(uri, bytes));
                }
                return;
            }
            i = i + 1;
        }
        let ghost uri = artifact.uri@;
        let ghost bytes = artifact.bytes@;
        let ghost before = self.items@;
        self.items.push(artifact);
        proof {
            assert(self.items@[before.len() as int].uri@ == uri);
            assert forall|u: Seq<char>| old(self)@.insert(uri, bytes).contains_key(
                u,
            ) implies #[trigger] self@.contains_key(u) by {
                if u != uri {
                    let k = choose|k: int| 0 <= k < before.len() && #[trigger] before[k].uri@ == u;
                    assert(self.items@[k].uri@ == u);
                }
            }
            assert forall|u: Seq<char>| #[trigger] self@.contains_key(u) implies old(self)@.insert(
                uri,
                bytes,
            ).contains_key(u) && self@[u] == old(self)@.insert(uri, bytes)[u] by {
                let k = choose|k: int|
                    0 <= k < self.items@.len() && #[trigger] self.items@[k].uri@ == u;
                if k != before.len() {
                    assert(before[k].uri@ == u);
                }
            }
            assert(self@ =~= old(self)@.insert(uri, bytes));
        }
    }
}

/// Another handle to the same shared value. Calls `Arc::clone`, which makes a
/// handle to the same allocation.
#[verifier::external_body]
pub(crate) fn share<T>(shared: &Arc<T>) -> (other: Arc<T>)
    ensures
        other == *shared,
{
    Arc::clone(shared)
}

} // verus!

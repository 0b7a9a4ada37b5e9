//! Authenticated indexes over the pages of an immutable checkpoint.
use crate::error::{corrupt, ErrorView, RuntimeError};
use crate::hash::{sha256_of, Sha256};
use crate::page_map::{
    content_reference, content_uri, refers_to, Artifact, PageMapRoot, PageObjectReference, CAPACITY,
};
use vstd::prelude::*;

verus! {

/// A subtree of an index: a run of pages and the object that indexes it.
#[derive(Debug)]
pub struct CheckpointIndexChild {
    pub first_page: u64,
    pub page_count: u64,
    pub child: PageObjectReference,
}

impl Clone for CheckpointIndexChild {
    fn clone(&self) -> (copy: Self)
        ensures
            copy == *self,
    {
        CheckpointIndexChild {
            first_page: self.first_page,
            page_count: self.page_count,
            child: self.child.clone(),
        }
    }
}

#[derive(Debug)]
pub enum CheckpointIndexNode {
    Leaf { first_page: u64, hashes: Vec<Sha256> },
    Internal { level: u32, entries: Vec<CheckpointIndexChild> },
}

/// The byte format of index nodes.
pub trait CheckpointIndexCodec {
    fn encode_index(&self, node: &CheckpointIndexNode) -> Result<Vec<u8>, RuntimeError>;
}

/// The index of one checkpoint.
#[derive(Debug)]
pub struct CheckpointPageIndex {
    pub checkpoint_sha256: Sha256,
    pub checkpoint_length: u64,
    pub page_size: u32,
    pub page_count: u64,
    pub root: PageMapRoot,
}

impl Clone for CheckpointPageIndex {
    fn clone(&self) -> (copy: Self)
        ensures
            copy == *self,
    {
        CheckpointPageIndex {
            checkpoint_sha256: self.checkpoint_sha256,
            checkpoint_length: self.checkpoint_length,
            page_size: self.page_size,
            page_count: self.page_count,
            root: self.root.clone(),
        }
    }
}

pub open spec fn index_prefix() -> Seq<char> {
    "_otmp/checkpoint-page-index/"@
}

pub open spec fn index_suffix() -> Seq<char> {
    ".cbor"@
}

/// Pages under a full subtree of the given level.
pub open spec fn span(level: nat) -> nat
    decreases level,
{
    if level == 0 {
        CAPACITY as nat
    } else {
        CAPACITY as nat * span((level - 1) as nat)
    }
}

/// Nodes of the given level over `n` pages.
pub open spec fn width(level: nat, n: nat) -> nat
    decreases level,
{
    let below = if level == 0 {
        n
    } else {
        width((level - 1) as nat, n)
    };
    ((below + CAPACITY as nat - 1) / (CAPACITY as int)) as nat
}

/// One past the last page (counted from zero) under node `k` of a level.
pub open spec fn run_end(level: nat, k: int, n: nat) -> int {
    if (k + 1) * span(level) <= n {
        (k + 1) * span(level)
    } else {
        n as int
    }
}

pub open spec fn listed_as(
    artifacts: Seq<Artifact>,
    reference: PageObjectReference,
    encoded: Seq<u8>,
) -> bool {
    &&& refers_to(reference@, index_prefix(), index_suffix(), encoded)
    &&& exists|i: int|
        0 <= i < artifacts.len() && (#[trigger] artifacts[i]).uri@ == reference.uri@
            && artifacts[i].bytes@ == encoded
}

/// `child` is node `k` of `level` over the pages of `bytes`: its object is in
/// the list and encodes a node that holds the digests of its pages, or the
/// nodes below it.
pub open spec fn indexes<C: CheckpointIndexCodec>(
    codec: C,
    artifacts: Seq<Artifact>,
    child: CheckpointIndexChild,
    level: nat,
    k: int,
    bytes: Seq<u8>,
    page_size: int,
) -> bool
    decreases level,
{
    let n = (bytes.len() as int / page_size) as nat;
    &&& child.first_page == k * span(level) + 1
    &&& child.page_count == run_end(level, k, n) - k * span(level)
    &&& exists|node: CheckpointIndexNode, encoded: Vec<u8>|
        {
            &&& #[trigger] call_ensures(C::encode_index, (&codec, &node), Ok(encoded))
            &&& listed_as(artifacts, child.child, encoded@)
            &&& match node {
                CheckpointIndexNode::Leaf { first_page, hashes } => {
                    &&& level == 0
                    &&& first_page == child.first_page
                    &&& page_digests(hashes@, bytes, page_size, k * span(level), child.page_count as int)
                },
                CheckpointIndexNode::Internal { level: own, entries } => {
                    &&& level > 0 && own == level
                    &&& entries@.len() == (if CAPACITY * (k + 1) <= width((level - 1) as nat, n) {
                        CAPACITY as int
                    } else {
                        width((level - 1) as nat, n) - CAPACITY * k
                    })
                    &&& forall|i: int|
                        0 <= i < entries@.len() ==> indexes(
                            codec,
                            artifacts,
                            #[trigger] entries@[i],
                            (level - 1) as nat,
                            CAPACITY * k + i,
                            bytes,
                            page_size,
                        )
                },
            }
        }
}

/// The digests of `count` pages, from page `first` on, counted from zero.
pub open spec fn page_digests(
    hashes: Seq<Sha256>,
    bytes: Seq<u8>,
    page_size: int,
    first: int,
    count: int,
) -> bool {
    &&& hashes.len() == count
    &&& forall|i: int|
        0 <= i < count ==> (#[trigger] hashes[i])@ == sha256_of(
            bytes.subrange((first + i) * page_size, (first + i) * page_size + page_size),
        )
}

/// The height of an index over `n` pages: the lowest level with one node.
pub open spec fn is_height(height: nat, n: nat) -> bool {
    &&& n <= span(height)
    &&& height > 0 ==> span((height - 1) as nat) < n
}

pub proof fn lemma_span(level: nat)
    ensures
        span(level) > 0,
        span(level + 1) == CAPACITY * span(level),
    decreases level,
{
    if level > 0 {
        lemma_span((level - 1) as nat);
        let s = span((level - 1) as nat);
        assert(128 * s > 0);
    }
}

proof fn lemma_span_grows(a: nat, b: nat)
    requires
        a <= b,
    ensures
        span(a) <= span(b),
    decreases b - a,
{
    if a < b {
        lemma_span(a);
        lemma_span_grows(a + 1, b);
    }
}

proof fn lemma_span_bound(level: nat)
    requires
        level >= 9,
    ensures
        span(level) > u64::MAX,
{
    reveal_with_fuel(span, 10);
    assert(span(9) == 128 * (128 * (128 * (128 * (128 * (128 * (128 * (128 * (128 * 128)))))))));
    lemma_span_grows(9, level);
}

/// The nodes of a level cover all pages, and none is empty.
pub proof fn lemma_width(level: nat, n: nat)
    requires
        n > 0,
    ensures
        width(level, n) > 0,
        (width(level, n) - 1) * span(level) < n,
        n <= width(level, n) * span(level),
        width(level, n) == 1 <==> n <= span(level),
    decreases level,
{
    lemma_span(level);
    let w = width(level, n) as int;
    let below = if level == 0 {
        n as int
    } else {
        width((level - 1) as nat, n) as int
    };
    let s = if level == 0 {
        1int
    } else {
        span((level - 1) as nat) as int
    };
    if level > 0 {
        lemma_width((level - 1) as nat, n);
        lemma_span((level - 1) as nat);
    }
    assert(span(level) == 128 * s);
    assert(128 * (w - 1) < below <= 128 * w);
    assert((w - 1) * (128 * s) <= (below - 1) * s) by (nonlinear_arith)
        requires
            128 * (w - 1) <= below - 1,
            s > 0,
    ;
    assert(below * s <= w * (128 * s)) by (nonlinear_arith)
        requires
            below <= 128 * w,
            s > 0,
    ;
    if w == 1 {
        assert(n <= 1 * span(level));
    }
    if n <= span(level) && w > 1 {
        assert((w - 1) * span(level) >= span(level)) by (nonlinear_arith)
            requires
                w > 1,
                span(level) > 0,
        ;
    }
}

/// Adding objects to the list keeps what is indexed.
proof fn lemma_indexes_more<C: CheckpointIndexCodec>(
    codec: C,
    before: Seq<Artifact>,
    after: Seq<Artifact>,
    child: CheckpointIndexChild,
    level: nat,
    k: int,
    bytes: Seq<u8>,
    page_size: int,
)
    requires
        indexes(codec, before, child, level, k, bytes, page_size),
        before.len() <= after.len(),
        before == after.take(before.len() as int),
    ensures
        indexes(codec, after, child, level, k, bytes, page_size),
    decreases level,
{
    let n = (bytes.len() as int / page_size) as nat;
    let (node, encoded) = choose|node: CheckpointIndexNode, encoded: Vec<u8>|
        {
            &&& #[trigger] call_ensures(C::encode_index, (&codec, &node), Ok(encoded))
            &&& listed_as(before, child.child, encoded@)
            &&& match node {
                CheckpointIndexNode::Leaf { first_page, hashes } => {
                    &&& level == 0
                    &&& first_page == child.first_page
                    &&& page_digests(hashes@, bytes, page_size, k * span(level), child.page_count as int)
                },
                CheckpointIndexNode::Internal { level: own, entries } => {
                    &&& level > 0 && own == level
                    &&& entries@.len() == (if CAPACITY * (k + 1) <= width((level - 1) as nat, n) {
                        CAPACITY as int
                    } else {
                        width((level - 1) as nat, n) - CAPACITY * k
                    })
                    &&& forall|i: int|
                        0 <= i < entries@.len() ==> indexes(
                            codec,
                            before,
                            #[trigger] entries@[i],
                            (level - 1) as nat,
                            CAPACITY * k + i,
                            bytes,
                            page_size,
                        )
                },
            }
        };
    let at = choose|i: int|
        0 <= i < before.len() && (#[trigger] before[i]).uri@ == child.child.uri@
            && before[i].bytes@ == encoded@;
    assert(after[at] == before[at]);
    assert(listed_as(after, child.child, encoded@));
    match node {
        CheckpointIndexNode::Leaf { .. } => {},
        CheckpointIndexNode::Internal { entries, .. } => {
            assert forall|i: int| 0 <= i < entries@.len() implies indexes(
                codec,
                after,
                #[trigger] entries@[i],
                (level - 1) as nat,
                CAPACITY * k + i,
                bytes,
                page_size,
            ) by {
                lemma_indexes_more(
                    codec,
                    before,
                    after,
                    entries@[i],
                    (level - 1) as nat,
                    CAPACITY * k + i,
                    bytes,
                    page_size,
                );
            }
        },
    }
    assert(call_ensures(C::encode_index, (&codec, &node), Ok(encoded)));
}

/// A row of nodes, from the first of its level on.
spec fn row<C: CheckpointIndexCodec>(
    codec: C,
    artifacts: Seq<Artifact>,
    children: Seq<CheckpointIndexChild>,
    level: nat,
    bytes: Seq<u8>,
    page_size: int,
) -> bool {
    forall|k: int|
        0 <= k < children.len() ==> indexes(
            codec,
            artifacts,
            #[trigger] children[k],
            level,
            k,
            bytes,
            page_size,
        )
}

proof fn lemma_row_more<C: CheckpointIndexCodec>(
    codec: C,
    before: Seq<Artifact>,
    after: Seq<Artifact>,
    children: Seq<CheckpointIndexChild>,
    level: nat,
    bytes: Seq<u8>,
    page_size: int,
)
    requires
        row(codec, before, children, level, bytes, page_size),
        before.len() <= after.len(),
        before == after.take(before.len() as int),
    ensures
        row(codec, after, children, level, bytes, page_size),
{
    assert forall|k: int| 0 <= k < children.len() implies indexes(
        codec,
        after,
        #[trigger] children[k],
        level,
        k,
        bytes,
        page_size,
    ) by {
        lemma_indexes_more(codec, before, after, children[k], level, k, bytes, page_size);
    }
}

/// `node` is node `k` of a level over the pages of `bytes`: it holds the digests
/// of its pages, or the nodes below it.
pub open spec fn is_node<C: CheckpointIndexCodec>(
    codec: C,
    artifacts: Seq<Artifact>,
    node: CheckpointIndexNode,
    level: nat,
    k: int,
    bytes: Seq<u8>,
    page_size: int,
) -> bool {
    let n = (bytes.len() as int / page_size) as nat;
    &&& 0 <= k < width(level, n)
    &&& match node {
        CheckpointIndexNode::Leaf { first_page, hashes } => {
            &&& level == 0
            &&& first_page == k * span(level) + 1
            &&& page_digests(
                hashes@,
                bytes,
                page_size,
                k * span(level),
                run_end(level, k, n) - k * span(level),
            )
        },
        CheckpointIndexNode::Internal { level: own, entries } => {
            &&& level > 0 && own == level
            &&& entries@.len() == (if CAPACITY * (k + 1) <= width((level - 1) as nat, n) {
                CAPACITY as int
            } else {
                width((level - 1) as nat, n) - CAPACITY * k
            })
            &&& forall|i: int|
                0 <= i < entries@.len() ==> indexes(
                    codec,
                    artifacts,
                    #[trigger] entries@[i],
                    (level - 1) as nat,
                    CAPACITY * k + i,
                    bytes,
                    page_size,
                )
        },
    }
}

/// Whether the format refused a node of the index over the pages of `bytes`.
pub open spec fn index_refused<C: CheckpointIndexCodec>(
    codec: C,
    bytes: Seq<u8>,
    page_size: int,
    e: RuntimeError,
) -> bool {
    exists|artifacts: Seq<Artifact>, node: CheckpointIndexNode, level: nat, k: int|
        {
            &&& #[trigger] is_node(codec, artifacts, node, level, k, bytes, page_size)
            &&& call_ensures(C::encode_index, (&codec, &node), Err(e))
        }
}

/// Each object lies under the digest of its bytes.
pub open spec fn addressed(artifacts: Seq<Artifact>) -> bool {
    forall|i: int|
        0 <= i < artifacts.len() ==> (#[trigger] artifacts[i]).uri@ == content_uri(
            index_prefix(),
            index_suffix(),
            artifacts[i].bytes@,
        )
}

/// Where the objects of a level begin: behind those of the levels below.
pub open spec fn offset(level: nat, n: nat) -> nat
    decreases level,
{
    if level == 0 {
        0
    } else {
        offset((level - 1) as nat, n) + width((level - 1) as nat, n)
    }
}

/// The object in the place of node `k` of a level holds that node.
pub open spec fn object_at<C: CheckpointIndexCodec>(
    codec: C,
    artifacts: Seq<Artifact>,
    level: nat,
    k: int,
    bytes: Seq<u8>,
    page_size: int,
) -> bool {
    let at = offset(level, (bytes.len() as int / page_size) as nat) + k;
    exists|node: CheckpointIndexNode, encoded: Vec<u8>|
        {
            &&& is_node(codec, artifacts, node, level, k, bytes, page_size)
            &&& #[trigger] call_ensures(C::encode_index, (&codec, &node), Ok(encoded))
            &&& 0 <= at < artifacts.len()
            &&& artifacts[at].bytes@ == encoded@
        }
}

/// The objects are the nodes of the levels below `height` and the first `count`
/// of that level, leaves first, each level in order, and no more.
pub open spec fn laid_out<C: CheckpointIndexCodec>(
    codec: C,
    artifacts: Seq<Artifact>,
    height: nat,
    count: nat,
    bytes: Seq<u8>,
    page_size: int,
) -> bool {
    let n = (bytes.len() as int / page_size) as nat;
    &&& artifacts.len() == offset(height, n) + count
    &&& forall|level: nat, k: int|
        level < height && 0 <= k < width(level, n) ==> #[trigger] object_at(
            codec,
            artifacts,
            level,
            k,
            bytes,
            page_size,
        )
    &&& forall|k: int|
        0 <= k < count ==> #[trigger] object_at(codec, artifacts, height, k, bytes, page_size)
}

proof fn lemma_object_more<C: CheckpointIndexCodec>(
    codec: C,
    before: Seq<Artifact>,
    after: Seq<Artifact>,
    level: nat,
    k: int,
    bytes: Seq<u8>,
    page_size: int,
)
    requires
        object_at(codec, before, level, k, bytes, page_size),
        before.len() <= after.len(),
        before == after.take(before.len() as int),
    ensures
        object_at(codec, after, level, k, bytes, page_size),
{
    let at = offset(level, (bytes.len() as int / page_size) as nat) + k;
    let (node, encoded) = choose|node: CheckpointIndexNode, encoded: Vec<u8>|
        {
            &&& is_node(codec, before, node, level, k, bytes, page_size)
            &&& #[trigger] call_ensures(C::encode_index, (&codec, &node), Ok(encoded))
            &&& 0 <= at < before.len()
            &&& before[at].bytes@ == encoded@
        };
    lemma_node_more(codec, before, after, node, level, k, bytes, page_size);
    assert(after[at] == before[at]);
    assert(call_ensures(C::encode_index, (&codec, &node), Ok(encoded)));
}

proof fn lemma_node_more<C: CheckpointIndexCodec>(
    codec: C,
    before: Seq<Artifact>,
    after: Seq<Artifact>,
    node: CheckpointIndexNode,
    level: nat,
    k: int,
    bytes: Seq<u8>,
    page_size: int,
)
    requires
        is_node(codec, before, node, level, k, bytes, page_size),
        before.len() <= after.len(),
        before == after.take(before.len() as int),
    ensures
        is_node(codec, after, node, level, k, bytes, page_size),
{
    if let CheckpointIndexNode::Internal { entries, .. } = node {
        assert forall|i: int| 0 <= i < entries@.len() implies indexes(
            codec,
            after,
            #[trigger] entries@[i],
            (level - 1) as nat,
            CAPACITY * k + i,
            bytes,
            page_size,
        ) by {
            lemma_indexes_more(
                codec,
                before,
                after,
                entries@[i],
                (level - 1) as nat,
                CAPACITY * k + i,
                bytes,
                page_size,
            );
        }
    }
}

/// One more object, that of the next node, keeps the layout.
proof fn lemma_laid_out_more<C: CheckpointIndexCodec>(
    codec: C,
    before: Seq<Artifact>,
    after: Seq<Artifact>,
    node: CheckpointIndexNode,
    encoded: Vec<u8>,
    height: nat,
    count: nat,
    bytes: Seq<u8>,
    page_size: int,
)
    requires
        laid_out(codec, before, height, count, bytes, page_size),
        is_node(codec, before, node, height, count as int, bytes, page_size),
        call_ensures(C::encode_index, (&codec, &node), Ok(encoded)),
        after.len() == before.len() + 1,
        before == after.take(before.len() as int),
        after.last().bytes@ == encoded@,
    ensures
        laid_out(codec, after, height, count + 1, bytes, page_size),
{
    let n = (bytes.len() as int / page_size) as nat;
    assert forall|level: nat, k: int|
        level < height && 0 <= k < width(level, n) implies #[trigger] object_at(
        codec,
        after,
        level,
        k,
        bytes,
        page_size,
    ) by {
        assert(object_at(codec, before, level, k, bytes, page_size));
        lemma_object_more(codec, before, after, level, k, bytes, page_size);
    }
    assert forall|k: int| 0 <= k < count + 1 implies #[trigger] object_at(
        codec,
        after,
        height,
        k,
        bytes,
        page_size,
    ) by {
        if k < count {
            assert(object_at(codec, before, height, k, bytes, page_size));
            lemma_object_more(codec, before, after, height, k, bytes, page_size);
        } else {
            lemma_node_more(codec, before, after, node, height, k, bytes, page_size);
        }
    }
}

fn record<C: CheckpointIndexCodec>(
    codec: &C,
    node: &CheckpointIndexNode,
    artifacts: &mut Vec<Artifact>,
) -> (r: Result<PageObjectReference, RuntimeError>)
    ensures
        match r {
            Ok(reference) => {
                &&& final(artifacts)@.len() == old(artifacts)@.len() + 1
                &&& old(artifacts)@ == final(artifacts)@.take(old(artifacts)@.len() as int)
                &&& final(artifacts)@.last().uri@ == reference.uri@
                &&& addressed(old(artifacts)@) ==> addressed(final(artifacts)@)
                &&& exists|encoded: Vec<u8>|
                    {
                        &&& #[trigger] call_ensures(C::encode_index, (codec, node), Ok(encoded))
                        &&& listed_as(final(artifacts)@, reference, encoded@)
                        &&& final(artifacts)@.last().bytes@ == encoded@
                    }
            },
            Err(e) => call_ensures(C::encode_index, (codec, node), Err(e)),
        },
{
    match codec.encode_index(node) {
        Err(e) => Err(e),
        Ok(encoded) => {
            let reference = content_reference(
                "_otmp/checkpoint-page-index/",
                ".cbor",
                encoded.as_slice(),
            );
            let ghost before = artifacts@;
            artifacts.push(Artifact { uri: reference.uri.clone(), bytes: encoded });
            proof {
                assert(artifacts@.take(before.len() as int) =~= before);
                assert(artifacts@[before.len() as int].bytes == encoded);
                assert(listed_as(artifacts@, reference, encoded@));
                if addressed(before) {
                    assert forall|i: int| 0 <= i < artifacts@.len() implies (
                    #[trigger] artifacts@[i]).uri@ == content_uri(
                        index_prefix(),
                        index_suffix(),
                        artifacts@[i].bytes@,
                    ) by {
                        if i < before.len() {
                            assert(artifacts@[i] == before[i]);
                        }
                    }
                }
            }
            Ok(reference)
        },
    }
}

fn digests(bytes: &[u8], page_size: usize, first: usize, count: usize) -> (hashes: Vec<Sha256>)
    requires
        page_size > 0,
        (first + count) * page_size <= bytes@.len(),
    ensures
        page_digests(hashes@, bytes@, page_size as int, first as int, count as int),
{
    let total: usize = bytes.len();
    let mut hashes: Vec<Sha256> = Vec::new();
    let mut i: usize = 0;
    while i < count
        invariant
            i <= count,
            total == bytes@.len(),
            page_size > 0,
            (first + count) * page_size <= bytes@.len(),
            page_digests(hashes@, bytes@, page_size as int, first as int, i as int),
        decreases count - i,
    {
        proof {
            assert((first + i) * page_size + page_size <= (first + count) * page_size)
                by (nonlinear_arith)
                requires
                    i < count,
                    page_size > 0,
            ;
            assert(0 <= (first + i) * page_size) by (nonlinear_arith);
            assert(first + i <= (first + i) * page_size) by (nonlinear_arith)
                requires
                    page_size > 0,
            ;
        }
        let start: usize = (first + i) * page_size;
        hashes.push(Sha256::digest(&bytes[start..start + page_size]));
        i = i + 1;
    }
    hashes
}

/// The leaves of the index.
fn leaf_row<C: CheckpointIndexCodec>(
    codec: &C,
    bytes: &[u8],
    page_size: usize,
    page_count: usize,
    artifacts: &mut Vec<Artifact>,
) -> (r: Result<Vec<CheckpointIndexChild>, RuntimeError>)
    requires
        page_size > 0,
        page_count > 0,
        bytes@.len() == page_count * page_size,
        old(artifacts)@.len() == 0,
    ensures
        match r {
            Ok(children) => {
                &&& children@.len() == width(0, page_count as nat)
                &&& laid_out(
                    *codec,
                    final(artifacts)@,
                    0,
                    children@.len(),
                    bytes@,
                    page_size as int,
                )
                &&& row(*codec, final(artifacts)@, children@, 0, bytes@, page_size as int)
                &&& addressed(final(artifacts)@)
                &&& final(artifacts)@.len() > 0
                &&& final(artifacts)@.last().uri@ == children@.last().child.uri@
            },
            Err(e) => index_refused(*codec, bytes@, page_size as int, e),
        },
{
    let mut children: Vec<CheckpointIndexChild> = Vec::new();
    let mut first: usize = 0;
    proof {
        assert(bytes@.len() as int / page_size as int == page_count) by (nonlinear_arith)
            requires
                bytes@.len() == page_count * page_size,
                page_size > 0,
        ;
    }
    while first < page_count
        invariant
            page_size > 0,
            page_count > 0,
            bytes@.len() == page_count * page_size,
            bytes@.len() as int / page_size as int == page_count,
            first <= page_count,
            first == page_count ==> children@.len() == width(0, page_count as nat),
            first < page_count ==> first == children@.len() * CAPACITY,
            row(*codec, artifacts@, children@, 0, bytes@, page_size as int),
            laid_out(*codec, artifacts@, 0, children@.len(), bytes@, page_size as int),
            addressed(artifacts@),
            first > 0 ==> children@.len() > 0 && artifacts@.len() > 0 && artifacts@.last().uri@
                == children@.last().child.uri@,
        decreases page_count - first,
    {
        let count: usize = if page_count - first < CAPACITY {
            page_count - first
        } else {
            CAPACITY
        };
        proof {
            assert((first + count) * page_size <= page_count * page_size) by (nonlinear_arith)
                requires
                    first + count <= page_count,
                    page_size > 0,
            ;
        }
        let hashes = digests(bytes, page_size, first, count);
        let node = CheckpointIndexNode::Leaf { first_page: first as u64 + 1, hashes };
        let ghost before = artifacts@;
        assert(is_node(
            *codec,
            before,
            node,
            0,
            children@.len() as int,
            bytes@,
            page_size as int,
        ));
        let reference = match record(codec, &node, artifacts) {
            Err(e) => {
                assert(call_ensures(C::encode_index, (codec, &node), Err(e)));
                return Err(e);
            },
            Ok(reference) => reference,
        };
        let ghost k = children@.len() as int;
        let child = CheckpointIndexChild {
            first_page: first as u64 + 1,
            page_count: count as u64,
            child: reference,
        };
        proof {
            lemma_row_more(
                *codec,
                before,
                artifacts@,
                children@,
                0,
                bytes@,
                page_size as int,
            );
            assert(indexes(*codec, artifacts@, child, 0, k, bytes@, page_size as int));
            let encoded = choose|encoded: Vec<u8>|
                {
                    &&& #[trigger] call_ensures(C::encode_index, (codec, &node), Ok(encoded))
                    &&& listed_as(artifacts@, reference, encoded@)
                    &&& artifacts@.last().bytes@ == encoded@
                };
            lemma_laid_out_more(
                *codec,
                before,
                artifacts@,
                node,
                encoded,
                0,
                k as nat,
                bytes@,
                page_size as int,
            );
        }
        children.push(child);
        first = first + count;
    }
    Ok(children)
}

/// The nodes above a row of nodes.
fn upper_row<C: CheckpointIndexCodec>(
    codec: &C,
    below: &Vec<CheckpointIndexChild>,
    level: u32,
    Ghost(bytes): Ghost<Seq<u8>>,
    Ghost(page_size): Ghost<int>,
    artifacts: &mut Vec<Artifact>,
) -> (r: Result<Vec<CheckpointIndexChild>, RuntimeError>)
    requires
        level > 0,
        page_size > 0,
        0 < bytes.len() as int / page_size <= u64::MAX,
        below@.len() == width((level - 1) as nat, (bytes.len() as int / page_size) as nat),
        row(*codec, old(artifacts)@, below@, (level - 1) as nat, bytes, page_size),
        laid_out(*codec, old(artifacts)@, (level - 1) as nat, below@.len(), bytes, page_size),
        addressed(old(artifacts)@),
    ensures
        match r {
            Ok(children) => {
                &&& laid_out(
                    *codec,
                    final(artifacts)@,
                    level as nat,
                    children@.len(),
                    bytes,
                    page_size,
                )
                &&& children@.len() == width(
                    level as nat,
                    (bytes.len() as int / page_size) as nat,
                )
                &&& row(*codec, final(artifacts)@, children@, level as nat, bytes, page_size)
                &&& addressed(final(artifacts)@)
                &&& final(artifacts)@.len() > 0
                &&& final(artifacts)@.last().uri@ == children@.last().child.uri@
            },
            Err(e) => index_refused(*codec, bytes, page_size, e),
        },
{
    let ghost n = (bytes.len() as int / page_size) as nat;
    let ghost lower = (level - 1) as nat;
    let mut children: Vec<CheckpointIndexChild> = Vec::new();
    let mut first: usize = 0;
    proof {
        lemma_width(lower, n);
        lemma_span(lower);
        assert(laid_out(*codec, artifacts@, level as nat, 0, bytes, page_size));
    }
    while first < below.len()
        invariant
            level > 0,
            lower == (level - 1) as nat,
            page_size > 0,
            n == (bytes.len() as int / page_size) as nat,
            0 < n <= u64::MAX,
            below@.len() == width(lower, n),
            span(level as nat) == CAPACITY * span(lower),
            span(lower) > 0,
            (below@.len() - 1) * span(lower) < n <= below@.len() * span(lower),
            first <= below@.len(),
            first == below@.len() ==> children@.len() == width(level as nat, n),
            first < below@.len() ==> first == children@.len() * CAPACITY,
            row(*codec, artifacts@, below@, lower, bytes, page_size),
            row(*codec, artifacts@, children@, level as nat, bytes, page_size),
            laid_out(*codec, artifacts@, level as nat, children@.len(), bytes, page_size),
            addressed(artifacts@),
            first > 0 ==> children@.len() > 0 && artifacts@.len() > 0 && artifacts@.last().uri@
                == children@.last().child.uri@,
        decreases below@.len() - first,
    {
        let end: usize = if below.len() - first < CAPACITY {
            below.len()
        } else {
            first + CAPACITY
        };
        let mut entries: Vec<CheckpointIndexChild> = Vec::new();
        let mut i: usize = first;
        while i < end
            invariant
                first <= i <= end <= below@.len(),
                entries@ == below@.subrange(first as int, i as int),
            decreases end - i,
        {
            entries.push(below[i].clone());
            i = i + 1;
            assert(entries@ =~= below@.subrange(first as int, i as int));
        }
        let ghost k = children@.len() as int;
        proof {
            let s = span(lower) as int;
            assert(first == k * 128);
            assert(indexes(*codec, artifacts@, below@[first as int], lower, first as int, bytes, page_size));
            assert(indexes(*codec, artifacts@, below@[end - 1], lower, end - 1, bytes, page_size));
            assert(first * s == k * (128 * s)) by (nonlinear_arith)
                requires
                    first == k * 128,
            ;
            if end == first + 128 {
                assert((end - 1 + 1) * s == (k + 1) * (128 * s)) by (nonlinear_arith)
                    requires
                        end == k * 128 + 128,
                ;
            } else {
                assert(end == below@.len());
                assert(end * s <= (k + 1) * (128 * s)) by (nonlinear_arith)
                    requires
                        end <= k * 128 + 128,
                        s > 0,
                ;
            }
            assert(run_end(lower, end - 1, n) == run_end(level as nat, k, n));
            assert((end - 1) * s <= (below@.len() - 1) * s) by (nonlinear_arith)
                requires
                    end <= below@.len(),
                    s > 0,
            ;
            assert(first * s <= (end - 1) * s) by (nonlinear_arith)
                requires
                    first <= end - 1,
                    s > 0,
            ;
        }
        let first_page: u64 = below[first].first_page;
        let last_page: u64 = below[end - 1].first_page - 1 + below[end - 1].page_count;
        let page_count: u64 = last_page - (first_page - 1);
        let node = CheckpointIndexNode::Internal { level, entries };
        let ghost before = artifacts@;
        proof {
            assert forall|j: int| 0 <= j < entries@.len() implies indexes(
                *codec,
                before,
                #[trigger] entries@[j],
                lower,
                CAPACITY * k + j,
                bytes,
                page_size,
            ) by {
                assert(entries@[j] == below@[first + j]);
            }
            assert(is_node(*codec, before, node, level as nat, k, bytes, page_size));
        }
        let reference = match record(codec, &node, artifacts) {
            Err(e) => {
                assert(call_ensures(C::encode_index, (codec, &node), Err(e)));
                return Err(e);
            },
            Ok(reference) => reference,
        };
        let child = CheckpointIndexChild { first_page, page_count, child: reference };
        proof {
            lemma_row_more(*codec, before, artifacts@, below@, lower, bytes, page_size);
            lemma_row_more(
                *codec,
                before,
                artifacts@,
                children@,
                level as nat,
                bytes,
                page_size,
            );
            assert forall|j: int| 0 <= j < entries@.len() implies indexes(
                *codec,
                artifacts@,
                #[trigger] entries@[j],
                lower,
                CAPACITY * k + j,
                bytes,
                page_size,
            ) by {
                assert(entries@[j] == below@[first + j]);
            }
            let encoded = choose|encoded: Vec<u8>|
                {
                    &&& #[trigger] call_ensures(C::encode_index, (codec, &node), Ok(encoded))
                    &&& listed_as(artifacts@, reference, encoded@)
                    &&& artifacts@.last().bytes@ == encoded@
                };
            assert(call_ensures(C::encode_index, (codec, &node), Ok(encoded)));
            lemma_laid_out_more(
                *codec,
                before,
                artifacts@,
                node,
                encoded,
                level as nat,
                k as nat,
                bytes,
                page_size,
            );
            assert(indexes(*codec, artifacts@, child, level as nat, k, bytes, page_size));
        }
        children.push(child);
        first = end;
    }
    Ok(children)
}

/// The index names the one node of its highest level.
pub open spec fn roots<C: CheckpointIndexCodec>(
    codec: C,
    artifacts: Seq<Artifact>,
    root: CheckpointIndexChild,
    index: CheckpointPageIndex,
    bytes: Seq<u8>,
) -> bool {
    &&& root.child@ == index.root.spec_reference()
    &&& root.page_count == index.page_count
    &&& indexes(
        codec,
        artifacts,
        root,
        index.root.height as nat,
        0,
        bytes,
        index.page_size as int,
    )
}

/// `index` is the index of the checkpoint. The objects are its nodes, leaves
/// first, each level in order, each under the digest of its bytes, and the last is
/// the root.
pub open spec fn built<C: CheckpointIndexCodec>(
    codec: C,
    sha256: Sha256,
    length: u64,
    page_size: u32,
    bytes: Seq<u8>,
    index: CheckpointPageIndex,
    artifacts: Seq<Artifact>,
) -> bool {
    &&& indexable(sha256, length, page_size, bytes)
    &&& index.checkpoint_sha256 == sha256
    &&& index.checkpoint_length == length
    &&& index.page_size == page_size
    &&& index.page_count * page_size == bytes.len()
    &&& is_height(index.root.height as nat, index.page_count as nat)
    &&& laid_out(codec, artifacts, index.root.height as nat, 1, bytes, page_size as int)
    &&& addressed(artifacts)
    &&& artifacts.len() > 0
    &&& artifacts.last().uri@ == index.root.uri@
    &&& exists|root: CheckpointIndexChild| #[trigger] roots(codec, artifacts, root, index, bytes)
}

/// Builds the index over every page of a checkpoint.
pub fn build<C: CheckpointIndexCodec>(
    codec: &C,
    sha256: Sha256,
    length: u64,
    page_size: u32,
    bytes: &[u8],
) -> (r: Result<(CheckpointPageIndex, Vec<Artifact>), RuntimeError>)
    ensures
        match r {
            Ok((index, artifacts)) => page_size * CAPACITY <= usize::MAX && built(
                *codec,
                sha256,
                length,
                page_size,
                bytes@,
                index,
                artifacts@,
            ),
            Err(e) => if !indexable(sha256, length, page_size, bytes@) {
                e@ == ErrorView::Corrupt("invalid checkpoint bytes for page index"@)
            } else if page_size * CAPACITY > usize::MAX {
                e@ == ErrorView::Corrupt("checkpoint index leaf size overflow"@)
            } else {
                index_refused(*codec, bytes@, page_size as int, e)
            },
        },
{
    if page_size == 0 || bytes.len() == 0 || bytes.len() as u64 % page_size as u64 != 0 || !sha256.matches(bytes)
        || bytes.len() as u64 != length {
        return Err(corrupt("invalid checkpoint bytes for page index"));
    }
    let size: usize = page_size as usize;
    let page_count: usize = bytes.len() / size;
    if size > usize::MAX / CAPACITY {
        return Err(corrupt("checkpoint index leaf size overflow"));
    }
    proof {
        let l = bytes@.len() as int;
        let s = size as int;
        vstd::arithmetic::div_mod::lemma_fundamental_div_mod(l, s);
        assert(s * (l / s) == (l / s) * s) by (nonlinear_arith);
        assert(page_count > 0) by {
            if l / s == 0 {
                assert(l == 0 * s);
            }
        }
    }
    let mut artifacts: Vec<Artifact> = Vec::new();
    let mut current = match leaf_row(codec, bytes, size, page_count, &mut artifacts) {
        Err(e) => {
            return Err(e);
        },
        Ok(children) => children,
    };
    let mut height: u32 = 0;
    let ghost n = page_count as nat;
    while current.len() > 1
        invariant
            n == page_count,
            n > 0,
            size == page_size,
            size > 0,
            page_size * CAPACITY <= usize::MAX,
            indexable(sha256, length, page_size, bytes@),
            bytes@.len() as int / size as int == n,
            page_count * page_size == bytes@.len(),
            height <= 9,
            height > 0 ==> span((height - 1) as nat) < n,
            current@.len() == width(height as nat, n),
            row(*codec, artifacts@, current@, height as nat, bytes@, size as int),
            laid_out(*codec, artifacts@, height as nat, current@.len(), bytes@, size as int),
            addressed(artifacts@),
            artifacts@.len() > 0,
            artifacts@.last().uri@ == current@.last().child.uri@,
        decreases 9 - height,
    {
        proof {
            lemma_width(height as nat, n);
            if height >= 9 {
                lemma_span_bound(height as nat);
            }
        }
        height = height + 1;
        current = match upper_row(
            codec,
            &current,
            height,
            Ghost(bytes@),
            Ghost(size as int),
            &mut artifacts,
        ) {
            Err(e) => {
                return Err(e);
            },
            Ok(children) => children,
        };
    }
    proof {
        lemma_width(height as nat, n);
    }
    let root = &current[0];
    proof {
        assert(indexes(*codec, artifacts@, *root, height as nat, 0, bytes@, size as int));
        assert(1 * span(height as nat) == span(height as nat));
        assert(0 * span(height as nat) == 0);
        assert(root.page_count == n);
    }
    let index = CheckpointPageIndex {
        checkpoint_sha256: sha256,
        checkpoint_length: length,
        page_size,
        page_count: page_count as u64,
        root: PageMapRoot {
            uri: root.child.uri.clone(),
            sha256: root.child.sha256,
            length: root.child.length,
            height,
        },
    };
    proof {
        assert(roots(*codec, artifacts@, *root, index, bytes@));
        assert(built(*codec, sha256, length, page_size, bytes@, index, artifacts@));
    }
    Ok((index, artifacts))
}

/// Bytes that are the named checkpoint and consist of whole pages.
pub open spec fn indexable(sha256: Sha256, length: u64, page_size: u32, bytes: Seq<u8>) -> bool {
    &&& page_size > 0
    &&& bytes.len() > 0
    &&& bytes.len() % (page_size as nat) == 0
    &&& sha256@ == sha256_of(bytes)
    &&& length == bytes.len()
}

} // verus!

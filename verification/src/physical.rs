//! Persistent page-map trees: building, updating and collecting them.
use crate::error::{corrupt, ErrorView, RuntimeError};
use crate::hash::{sha256_of, Sha256};
use crate::page_map::{
    content_reference, content_uri, refers_to, share, Artifact, Artifacts, PageCodec,
    PageMapBranch, PageMapEntry, PageMapNode, PageMapRoot, PageObjectReference, ReferenceView,
    CAPACITY,
};
use std::sync::Arc;
use vstd::prelude::*;

verus! {

/// The byte format of page-map nodes. A node that is too large is refused by
/// `encode`.
pub trait PageMapCodec {
    /// Whether a node has a shape that the format allows.
    fn validate(&self, node: &PageMapNode) -> Result<(), RuntimeError>;

    fn encode(&self, node: &PageMapNode) -> Result<Vec<u8>, RuntimeError>;
}

/// A page-map node with its subtrees. Nodes are shared and never changed.
#[derive(Debug)]
pub struct Tree {
    pub reference: PageObjectReference,
    pub node: PageMapNode,
    pub children: Vec<Arc<Tree>>,
    pub min: u64,
    pub max: u64,
}

/// Strictly increasing page numbers.
pub open spec fn sorted(entries: Seq<PageMapEntry>) -> bool {
    forall|i: int, j: int|
        #![trigger entries[i], entries[j]]
        0 <= i < j < entries.len() ==> entries[i].page_number < entries[j].page_number
}

impl Tree {
    /// The entries of the leaves, from left to right.
    pub open spec fn entries(&self) -> Seq<PageMapEntry>
        decreases self,
    {
        match self.node {
            PageMapNode::Leaf { entries } => entries@,
            PageMapNode::Internal { .. } => entries_of(self.children@),
        }
    }

    pub open spec fn level(&self) -> u32 {
        self.node.spec_level()
    }

    /// The tree is ordered, its nodes agree with their subtrees, and all its
    /// leaves are at level zero.
    pub open spec fn wf(&self) -> bool
        decreases self,
    {
        match self.node {
            PageMapNode::Leaf { entries } => {
                &&& entries@.len() > 0
                &&& sorted(entries@)
                &&& self.children@.len() == 0
                &&& self.min == entries@[0].page_number
                &&& self.max == entries@.last().page_number
            },
            PageMapNode::Internal { level, entries } => {
                &&& level > 0
                &&& self.children@.len() > 0
                &&& entries@.len() == self.children@.len()
                &&& forest_wf(self.children@, (level - 1) as u32)
                &&& branches_match(entries@, self.children@)
                &&& self.min == self.children@[0].min
                &&& self.max == self.children@.last().max
            },
        }
    }
}

/// The entries of consecutive trees.
pub open spec fn entries_of(trees: Seq<Arc<Tree>>) -> Seq<PageMapEntry>
    decreases trees,
{
    if trees.len() == 0 {
        Seq::empty()
    } else {
        entries_of(trees.drop_last()) + trees.last().entries()
    }
}

/// Consecutive trees of one level whose page ranges follow each other.
pub open spec fn forest_wf(trees: Seq<Arc<Tree>>, level: u32) -> bool
    decreases trees,
{
    trees.len() > 0 ==> {
        &&& forest_wf(trees.drop_last(), level)
        &&& trees.last().wf()
        &&& trees.last().level() == level
        &&& trees.len() > 1 ==> trees[trees.len() - 2].max < trees.last().min
    }
}

/// The branches of a node name its subtrees.
pub open spec fn branches_match(branches: Seq<PageMapBranch>, trees: Seq<Arc<Tree>>) -> bool {
    &&& branches.len() == trees.len()
    &&& forall|i: int|
        0 <= i < trees.len() ==> (#[trigger] branches[i]).max_page == trees[i].max
            && branches[i].child == trees[i].reference
}

// ------------------------------------------------------- ordering of trees

/// A well-formed tree holds its entries in order between its bounds.
pub proof fn lemma_tree_ordered(tree: Arc<Tree>)
    requires
        tree.wf(),
    ensures
        tree.entries().len() > 0,
        sorted(tree.entries()),
        tree.entries()[0].page_number == tree.min,
        tree.entries().last().page_number == tree.max,
        tree.min <= tree.max,
    decreases tree,
{
    match tree.node {
        PageMapNode::Leaf { entries } => {},
        PageMapNode::Internal { level, entries } => {
            lemma_forest_ordered(tree.children@, (level - 1) as u32);
        },
    }
}

pub proof fn lemma_forest_ordered(trees: Seq<Arc<Tree>>, level: u32)
    requires
        forest_wf(trees, level),
    ensures
        sorted(entries_of(trees)),
        trees.len() > 0 ==> {
            &&& entries_of(trees).len() > 0
            &&& entries_of(trees)[0].page_number == trees[0].min
            &&& entries_of(trees).last().page_number == trees.last().max
            &&& trees[0].min <= trees.last().max
        },
        trees.len() == 0 ==> entries_of(trees).len() == 0,
    decreases trees,
{
    if trees.len() > 0 {
        lemma_forest_ordered(trees.drop_last(), level);
        lemma_tree_ordered(trees.last());
        if trees.len() > 1 {
            assert(trees.drop_last().last() == trees[trees.len() - 2]);
            assert(trees.drop_last()[0] == trees[0]);
        }
    }
}

/// Forests can be joined where the ranges follow each other.
pub proof fn lemma_forest_join(a: Seq<Arc<Tree>>, b: Seq<Arc<Tree>>, level: u32)
    requires
        forest_wf(a, level),
        forest_wf(b, level),
        a.len() > 0 && b.len() > 0 ==> a.last().max < b[0].min,
    ensures
        forest_wf(a + b, level),
        entries_of(a + b) == entries_of(a) + entries_of(b),
    decreases b,
{
    if b.len() == 0 {
        assert(a + b =~= a);
        assert(entries_of(a) + entries_of(b) =~= entries_of(a));
    } else {
        assert((a + b).drop_last() =~= a + b.drop_last());
        if b.len() > 1 {
            assert(b.drop_last()[0] == b[0]);
            assert((a + b)[(a + b).len() - 2] == b[b.len() - 2]);
        } else if a.len() > 0 {
            assert((a + b)[(a + b).len() - 2] == a.last());
        }
        lemma_forest_join(a, b.drop_last(), level);
        assert(entries_of(a + b) =~= entries_of(a) + entries_of(b));
    }
}

/// Any part of a forest is a forest.
pub proof fn lemma_forest_split(trees: Seq<Arc<Tree>>, level: u32, k: int)
    requires
        forest_wf(trees, level),
        0 <= k <= trees.len(),
    ensures
        forest_wf(trees.take(k), level),
        forest_wf(trees.skip(k), level),
        entries_of(trees) == entries_of(trees.take(k)) + entries_of(trees.skip(k)),
        0 < k < trees.len() ==> trees.take(k).last().max < trees.skip(k)[0].min,
    decreases trees,
{
    if k == trees.len() {
        assert(trees.take(k) =~= trees);
        assert(trees.skip(k) =~= Seq::<Arc<Tree>>::empty());
        assert(entries_of(trees.take(k)) + entries_of(trees.skip(k)) =~= entries_of(trees));
    } else {
        let shorter = trees.drop_last();
        lemma_forest_split(shorter, level, k);
        assert(shorter.take(k) =~= trees.take(k));
        assert(trees.skip(k).drop_last() =~= shorter.skip(k));
        assert(trees.skip(k).last() == trees.last());
        if k + 1 < trees.len() {
            assert(trees.skip(k)[trees.skip(k).len() - 2] == trees[trees.len() - 2]);
            assert(trees.skip(k)[0] == shorter.skip(k)[0]);
        } else {
            assert(shorter.skip(k) =~= Seq::<Arc<Tree>>::empty());
        }
        assert(entries_of(trees) =~= entries_of(trees.take(k)) + entries_of(trees.skip(k)));
    }
}

/// Each tree of a forest is well formed, at the forest's level, and ends
/// before any later one begins.
pub proof fn lemma_forest_member(trees: Seq<Arc<Tree>>, level: u32, i: int)
    requires
        forest_wf(trees, level),
        0 <= i < trees.len(),
    ensures
        trees[i].wf(),
        trees[i].level() == level,
        i + 1 < trees.len() ==> trees[i].max < trees[i + 1].min,
    decreases trees,
{
    if i == trees.len() - 1 {
    } else {
        lemma_forest_member(trees.drop_last(), level, i);
        assert(trees.drop_last()[i] == trees[i]);
        if i + 1 < trees.len() - 1 {
            assert(trees.drop_last()[i + 1] == trees[i + 1]);
        }
    }
}

// ------------------------------------------------------------ new objects

pub open spec fn map_prefix() -> Seq<char> {
    "_otmp/page-maps/"@
}

pub open spec fn map_suffix() -> Seq<char> {
    ".cbor"@
}

/// The codec refused a node with this error.
pub open spec fn node_refused<C: PageMapCodec>(
    codec: &C,
    node: PageMapNode,
    e: RuntimeError,
) -> bool {
    call_ensures(C::validate, (codec, &node), Err::<(), RuntimeError>(e)) || call_ensures(
        C::encode,
        (codec, &node),
        Err::<Vec<u8>, RuntimeError>(e),
    )
}

/// A leaf with the entries from `a` up to `b`.
pub open spec fn leaf_run(node: PageMapNode, entries: Seq<PageMapEntry>, a: int, b: int) -> bool {
    &&& 0 <= a < b <= entries.len()
    &&& node matches PageMapNode::Leaf { entries: held } && held@ == entries.subrange(a, b)
}

/// The codec refused a leaf over some of the entries.
pub open spec fn leaf_error<C: PageMapCodec>(
    codec: &C,
    entries: Seq<PageMapEntry>,
    e: RuntimeError,
) -> bool {
    exists|node: PageMapNode, a: int, b: int| #[trigger]
        leaf_run(node, entries, a, b) && node_refused(codec, node, e)
}

/// A node over the subtrees from `a` up to `b`.
pub open spec fn group_run(
    node: PageMapNode,
    level: u32,
    children: Seq<Arc<Tree>>,
    a: int,
    b: int,
) -> bool {
    &&& 0 <= a < b <= children.len()
    &&& node matches PageMapNode::Internal { level: l, entries } && l == level && branches_match(
        entries@,
        children.subrange(a, b),
    )
}

/// The codec refused a node over some of the subtrees.
pub open spec fn group_error<C: PageMapCodec>(
    codec: &C,
    level: u32,
    children: Seq<Arc<Tree>>,
    e: RuntimeError,
) -> bool {
    exists|node: PageMapNode, a: int, b: int| #[trigger]
        group_run(node, level, children, a, b) && node_refused(codec, node, e)
}

proof fn lemma_leaf_error_part<C: PageMapCodec>(
    codec: &C,
    all: Seq<PageMapEntry>,
    from: int,
    to: int,
    e: RuntimeError,
)
    requires
        0 <= from <= to <= all.len(),
        leaf_error(codec, all.subrange(from, to), e),
    ensures
        leaf_error(codec, all, e),
{
    let part = all.subrange(from, to);
    let (node, a, b) = choose|node: PageMapNode, a: int, b: int| #[trigger]
        leaf_run(node, part, a, b) && node_refused(codec, node, e);
    assert(part.subrange(a, b) =~= all.subrange(from + a, from + b));
    assert(leaf_run(node, all, from + a, from + b));
}

proof fn lemma_group_error_part<C: PageMapCodec>(
    codec: &C,
    level: u32,
    all: Seq<Arc<Tree>>,
    from: int,
    to: int,
    e: RuntimeError,
)
    requires
        0 <= from <= to <= all.len(),
        group_error(codec, level, all.subrange(from, to), e),
    ensures
        group_error(codec, level, all, e),
{
    let part = all.subrange(from, to);
    let (node, a, b) = choose|node: PageMapNode, a: int, b: int| #[trigger]
        group_run(node, level, part, a, b) && node_refused(codec, node, e);
    assert(part.subrange(a, b) =~= all.subrange(from + a, from + b));
    assert(group_run(node, level, all, from + a, from + b));
}

/// The address of a page-map node or of a page pack, by the digest of its bytes.
pub open spec fn own_address(uri: Seq<char>, bytes: Seq<u8>) -> bool {
    ||| uri == content_uri(map_prefix(), map_suffix(), bytes)
    ||| uri == content_uri(pack_prefix(), pack_suffix(), bytes)
}

/// Each object lies under the digest of its bytes.
pub open spec fn authentic(objects: Map<Seq<char>, Seq<u8>>) -> bool {
    forall|uri: Seq<char>| #[trigger]
        objects.contains_key(uri) ==> own_address(uri, objects[uri])
}

/// Every object that the tree needs is one of `known`, or its address is in
/// `new`.
pub open spec fn tree_covered(tree: Tree, known: Set<ReferenceView>, new: Set<Seq<char>>) -> bool
    decreases tree,
{
    &&& object_covered(tree.reference, known, new)
    &&& match tree.node {
        PageMapNode::Leaf { entries } => forall|i: int|
            0 <= i < entries@.len() ==> object_covered(
                (#[trigger] entries@[i]).pack,
                known,
                new,
            ),
        PageMapNode::Internal { .. } => forest_covered(tree.children@, known, new),
    }
}

pub open spec fn object_covered(
    reference: PageObjectReference,
    known: Set<ReferenceView>,
    new: Set<Seq<char>>,
) -> bool {
    known.contains(reference@) || new.contains(reference.uri@)
}

pub open spec fn forest_covered(
    trees: Seq<Arc<Tree>>,
    known: Set<ReferenceView>,
    new: Set<Seq<char>>,
) -> bool
    decreases trees,
{
    trees.len() > 0 ==> {
        &&& forest_covered(trees.drop_last(), known, new)
        &&& tree_covered(*trees.last(), known, new)
    }
}

/// Every object in `known` is one of `known2`, or its address is in `new2`.
pub open spec fn accounted(
    known: Set<ReferenceView>,
    known2: Set<ReferenceView>,
    new2: Set<Seq<char>>,
) -> bool {
    forall|r: ReferenceView| #[trigger]
        known.contains(r) ==> known2.contains(r) || new2.contains(r.uri)
}

/// More known objects, or more new ones, cover at least as much.
pub proof fn lemma_covered_more(
    tree: Arc<Tree>,
    known: Set<ReferenceView>,
    new: Set<Seq<char>>,
    known2: Set<ReferenceView>,
    new2: Set<Seq<char>>,
)
    requires
        tree_covered(*tree, known, new),
        accounted(known, known2, new2),
        new.subset_of(new2),
    ensures
        tree_covered(*tree, known2, new2),
    decreases tree,
{
    match tree.node {
        PageMapNode::Leaf { entries } => {},
        PageMapNode::Internal { .. } => {
            lemma_forest_covered_more(tree.children@, known, new, known2, new2);
        },
    }
}

pub proof fn lemma_forest_covered_more(
    trees: Seq<Arc<Tree>>,
    known: Set<ReferenceView>,
    new: Set<Seq<char>>,
    known2: Set<ReferenceView>,
    new2: Set<Seq<char>>,
)
    requires
        forest_covered(trees, known, new),
        accounted(known, known2, new2),
        new.subset_of(new2),
    ensures
        forest_covered(trees, known2, new2),
    decreases trees,
{
    if trees.len() > 0 {
        lemma_forest_covered_more(trees.drop_last(), known, new, known2, new2);
        lemma_covered_more(trees.last(), known, new, known2, new2);
    }
}

proof fn lemma_forest_covered_join(
    a: Seq<Arc<Tree>>,
    b: Seq<Arc<Tree>>,
    known: Set<ReferenceView>,
    new: Set<Seq<char>>,
)
    requires
        forest_covered(a, known, new),
        forest_covered(b, known, new),
    ensures
        forest_covered(a + b, known, new),
    decreases b,
{
    if b.len() == 0 {
        assert(a + b =~= a);
    } else {
        assert((a + b).drop_last() =~= a + b.drop_last());
        lemma_forest_covered_join(a, b.drop_last(), known, new);
    }
}

proof fn lemma_forest_covered_split(
    trees: Seq<Arc<Tree>>,
    k: int,
    known: Set<ReferenceView>,
    new: Set<Seq<char>>,
)
    requires
        forest_covered(trees, known, new),
        0 <= k <= trees.len(),
    ensures
        forest_covered(trees.take(k), known, new),
        forest_covered(trees.skip(k), known, new),
    decreases trees,
{
    if k == trees.len() {
        assert(trees.take(k) =~= trees);
        assert(trees.skip(k) =~= Seq::<Arc<Tree>>::empty());
    } else {
        lemma_forest_covered_split(trees.drop_last(), k, known, new);
        assert(trees.drop_last().take(k) =~= trees.take(k));
        assert(trees.skip(k).drop_last() =~= trees.drop_last().skip(k));
    }
}

/// Encodes a node and gives it the address of its bytes.
fn create_tree<C: PageMapCodec>(
    codec: &C,
    node: PageMapNode,
    children: Vec<Arc<Tree>>,
    artifacts: &mut Artifacts,
) -> (r: Result<Arc<Tree>, RuntimeError>)
    requires
        old(artifacts).wf(),
        node.spec_max_page() is Some,
        node is Internal ==> children@.len() > 0,
    ensures
        final(artifacts).wf(),
        match r {
            Ok(tree) => {
                &&& tree.node == node
                &&& tree.children == children
                &&& tree.max == node.spec_max_page()->0
                &&& tree.min == match node {
                    PageMapNode::Leaf { entries } => entries@[0].page_number,
                    PageMapNode::Internal { .. } => children@[0].min,
                }
                &&& exists|bytes: Vec<u8>|
                    {
                        &&& #[trigger] call_ensures(
                            C::encode,
                            (codec, &node),
                            Ok::<Vec<u8>, RuntimeError>(bytes),
                        )
                        &&& refers_to(tree.reference@, map_prefix(), map_suffix(), bytes@)
                        &&& final(artifacts)@ == old(artifacts)@.insert(
                            tree.reference.uri@,
                            bytes@,
                        )
                    }
            },
            Err(e) => {
                &&& call_ensures(C::encode, (codec, &node), Err::<Vec<u8>, RuntimeError>(e))
                &&& final(artifacts)@ == old(artifacts)@
            },
        },
{
    match codec.encode(&node) {
        Err(e) => Err(e),
        Ok(bytes) => {
            let reference = content_reference("_otmp/page-maps/", ".cbor", bytes.as_slice());
            let min: u64 = match &node {
                PageMapNode::Leaf { entries } => entries[0].page_number,
                PageMapNode::Internal { .. } => children[0].min,
            };
            let max: u64 = match node.max_page() {
                Some(max) => max,
                None => 0,
            };
            artifacts.insert(Artifact { uri: reference.uri.clone(), bytes });
            Ok(Arc::new(Tree { reference, node, children, min, max }))
        },
    }
}

fn copy_entries(entries: &Vec<PageMapEntry>) -> (copy: Vec<PageMapEntry>)
    ensures
        copy@ == entries@,
{
    let mut copy: Vec<PageMapEntry> = Vec::new();
    let mut i: usize = 0;
    while i < entries.len()
        invariant
            i <= entries@.len(),
            copy@ == entries@.take(i as int),
        decreases entries@.len() - i,
    {
        copy.push(entries[i].clone());
        i = i + 1;
        assert(copy@ =~= entries@.take(i as int));
    }
    assert(entries@.take(i as int) =~= entries@);
    copy
}

fn copy_trees(trees: &Vec<Arc<Tree>>) -> (copy: Vec<Arc<Tree>>)
    ensures
        copy@ == trees@,
{
    let mut copy: Vec<Arc<Tree>> = Vec::new();
    let mut i: usize = 0;
    while i < trees.len()
        invariant
            i <= trees@.len(),
            copy@ == trees@.take(i as int),
        decreases trees@.len() - i,
    {
        copy.push(share(&trees[i]));
        i = i + 1;
        assert(copy@ =~= trees@.take(i as int));
    }
    assert(trees@.take(i as int) =~= trees@);
    copy
}

/// The packs that the entries lie in.
pub open spec fn packs_of(entries: Seq<PageMapEntry>) -> Set<ReferenceView> {
    Set::new(|r: ReferenceView| exists|i: int| 0 <= i < entries.len() && entries[i].pack@ == r)
}

/// A leaf with exactly these entries was refused by the codec.
pub open spec fn leaf_refused<C: PageMapCodec>(codec: &C, entries: Seq<PageMapEntry>) -> bool {
    exists|node: PageMapNode, e: RuntimeError|
        {
            &&& node matches PageMapNode::Leaf { entries: held } && held@ == entries
            &&& #[trigger] call_ensures(
                C::encode,
                (codec, &node),
                Err::<Vec<u8>, RuntimeError>(e),
            )
        }
}

/// The leaves hold the entries in order. A run of entries is one leaf, unless
/// it is over the capacity or the codec refused it: then it is divided at its
/// midpoint.
pub open spec fn divided<C: PageMapCodec>(
    codec: &C,
    entries: Seq<PageMapEntry>,
    leaves: Seq<Arc<Tree>>,
) -> bool
    decreases entries.len(),
{
    if entries.len() == 0 {
        leaves.len() == 0
    } else {
        let mid = (entries.len() / 2) as int;
        ||| {
            &&& entries.len() <= CAPACITY
            &&& leaves.len() == 1
            &&& leaves[0].node matches PageMapNode::Leaf { entries: held } && held@ == entries
        }
        ||| {
            &&& entries.len() > 1
            &&& entries.len() > CAPACITY || leaf_refused(codec, entries)
            &&& exists|k: int|
                {
                    &&& 0 <= k <= leaves.len()
                    &&& divided(codec, entries.take(mid), #[trigger] leaves.take(k))
                    &&& divided(codec, entries.skip(mid), leaves.skip(k))
                }
        }
    }
}

/// One tree is a forest.
proof fn lemma_one_tree(tree: Arc<Tree>, known: Set<ReferenceView>, new: Set<Seq<char>>)
    requires
        tree.wf(),
        tree_covered(*tree, known, new),
    ensures
        forest_wf(seq![tree], tree.level()),
        entries_of(seq![tree]) == tree.entries(),
        forest_covered(seq![tree], known, new),
{
    let one = seq![tree];
    assert(one.drop_last() =~= Seq::<Arc<Tree>>::empty());
    assert(forest_wf(one.drop_last(), tree.level()));
    assert(forest_covered(one.drop_last(), known, new));
    assert(entries_of(one.drop_last()) == Seq::<PageMapEntry>::empty());
    assert(one.last() == tree);
    assert(entries_of(one) =~= tree.entries());
}

proof fn lemma_one_forest(tree: Arc<Tree>)
    requires
        tree.wf(),
    ensures
        forest_wf(seq![tree], tree.level()),
        entries_of(seq![tree]) == tree.entries(),
{
    let one = seq![tree];
    assert(one.drop_last() =~= Seq::<Arc<Tree>>::empty());
    assert(forest_wf(one.drop_last(), tree.level()));
    assert(entries_of(one.drop_last()) == Seq::<PageMapEntry>::empty());
    assert(one.last() == tree);
    assert(entries_of(one) =~= tree.entries());
}

proof fn lemma_packs_subset(part: Seq<PageMapEntry>, all: Seq<PageMapEntry>, from: int)
    requires
        0 <= from,
        from + part.len() <= all.len(),
        part == all.subrange(from, from + part.len()),
    ensures
        packs_of(part).subset_of(packs_of(all)),
{
    assert forall|r: ReferenceView| packs_of(part).contains(r) implies packs_of(all).contains(
        r,
    ) by {
        let i = choose|i: int| 0 <= i < part.len() && part[i].pack@ == r;
        assert(all[from + i].pack@ == r);
    }
}

#[verifier::spinoff_prover]
#[verifier::rlimit(40)]
proof fn lemma_leaves_join<C: PageMapCodec>(
    codec: &C,
    all: Seq<PageMapEntry>,
    mid: int,
    first: Seq<Arc<Tree>>,
    second: Seq<Arc<Tree>>,
    middle: Set<Seq<char>>,
    new: Set<Seq<char>>,
)
    requires
        all.len() > 1,
        mid == (all.len() / 2) as int,
        sorted(all),
        all.len() > CAPACITY || leaf_refused(codec, all),
        middle.subset_of(new),
        forest_wf(first, 0),
        forest_wf(second, 0),
        entries_of(first) == all.take(mid),
        entries_of(second) == all.skip(mid),
        divided(codec, all.take(mid), first),
        divided(codec, all.skip(mid), second),
        forest_covered(first, packs_of(all.take(mid)), middle),
        forest_covered(second, packs_of(all.skip(mid)), new),
    ensures
        forest_wf(first + second, 0),
        entries_of(first + second) == all,
        divided(codec, all, first + second),
        forest_covered(first + second, packs_of(all), new),
{
    let leaves = first + second;
    lemma_forest_ordered(first, 0);
    lemma_forest_ordered(second, 0);
    assert(all.take(mid).last() == all[mid - 1]);
    assert(all.skip(mid)[0] == all[mid]);
    lemma_forest_join(first, second, 0);
    assert(all =~= all.take(mid) + all.skip(mid));
    lemma_packs_subset(all.take(mid), all, 0);
    lemma_packs_subset(all.skip(mid), all, mid);
    lemma_forest_covered_more(first, packs_of(all.take(mid)), middle, packs_of(all), new);
    lemma_forest_covered_more(second, packs_of(all.skip(mid)), new, packs_of(all), new);
    lemma_forest_covered_join(first, second, packs_of(all), new);
    let k = first.len() as int;
    assert(leaves.take(k) =~= first);
    assert(leaves.skip(k) =~= second);
}

/// Writes entries into as few leaves as capacity and codec allow when runs are
/// only divided at their midpoint.
pub fn leaf_nodes<C: PageMapCodec>(
    codec: &C,
    entries: Vec<PageMapEntry>,
    artifacts: &mut Artifacts,
) -> (r: Result<Vec<Arc<Tree>>, RuntimeError>)
    requires
        old(artifacts).wf(),
        sorted(entries@),
    ensures
        final(artifacts).wf(),
        old(artifacts)@.dom().subset_of(final(artifacts)@.dom()),
        match r {
            Ok(leaves) => {
                &&& forest_wf(leaves@, 0)
                &&& entries_of(leaves@) == entries@
                &&& divided(codec, entries@, leaves@)
                &&& forest_covered(leaves@, packs_of(entries@), final(artifacts)@.dom())
                &&& authentic(old(artifacts)@) ==> authentic(final(artifacts)@)
            },
            Err(e) => leaf_error(codec, entries@, e),
        },
    decreases entries@.len(),
{
    if entries.len() == 0 {
        return Ok(Vec::new());
    }
    let ghost all = entries@;
    let node = PageMapNode::Leaf { entries: copy_entries(&entries) };
    proof {
        assert(all.subrange(0, all.len() as int) =~= all);
        assert(leaf_run(node, all, 0, all.len() as int));
    }
    match codec.validate(&node) {
        Err(e) => {
            assert(node_refused(codec, node, e));
            return Err(e);
        },
        Ok(()) => {},
    }
    if entries.len() <= CAPACITY {
        match create_tree(codec, node, Vec::new(), artifacts) {
            Ok(tree) => {
                let mut leaves: Vec<Arc<Tree>> = Vec::new();
                leaves.push(tree);
                proof {
                    lemma_one_tree(tree, packs_of(all), artifacts@.dom());
                    assert(leaves@ =~= seq![tree]);
                }
                return Ok(leaves);
            },
            Err(e) => {
                assert(node_refused(codec, node, e));
                if entries.len() == 1 {
                    return Err(e);
                }
                assert(leaf_refused(codec, all));
            },
        }
    }
    let mut left = entries;
    let mid: usize = left.len() / 2;
    let right = left.split_off(mid);
    assert(left@ =~= all.take(mid as int));
    assert(right@ =~= all.skip(mid as int));
    proof {
        assert(left@ =~= all.subrange(0, mid as int));
        assert(right@ =~= all.subrange(mid as int, all.len() as int));
    }
    let mut leaves = match leaf_nodes(codec, left, artifacts) {
        Err(e) => {
            proof {
                lemma_leaf_error_part(codec, all, 0, mid as int, e);
            }
            return Err(e);
        },
        Ok(leaves) => leaves,
    };
    let ghost first = leaves@;
    let ghost middle = artifacts@.dom();
    let mut more = match leaf_nodes(codec, right, artifacts) {
        Err(e) => {
            proof {
                lemma_leaf_error_part(codec, all, mid as int, all.len() as int, e);
            }
            return Err(e);
        },
        Ok(leaves) => leaves,
    };
    let ghost second = more@;
    leaves.append(&mut more);
    proof {
        assert(leaves@ =~= first + second);
        lemma_leaves_join(codec, all, mid as int, first, second, middle, artifacts@.dom());
    }
    Ok(leaves)
}

/// A node over exactly these subtrees was refused by the codec.
pub open spec fn group_refused<C: PageMapCodec>(
    codec: &C,
    level: u32,
    children: Seq<Arc<Tree>>,
) -> bool {
    exists|node: PageMapNode, e: RuntimeError|
        {
            &&& node matches PageMapNode::Internal { level: l, entries } && l == level
                && branches_match(entries@, children)
            &&& #[trigger] call_ensures(
                C::encode,
                (codec, &node),
                Err::<Vec<u8>, RuntimeError>(e),
            )
        }
}

/// The nodes hold the subtrees in order. A run of subtrees is one node, unless
/// it is over the capacity or the codec refused it: then it is divided at its
/// midpoint.
pub open spec fn grouped<C: PageMapCodec>(
    codec: &C,
    level: u32,
    children: Seq<Arc<Tree>>,
    nodes: Seq<Arc<Tree>>,
) -> bool
    decreases children.len(),
{
    if children.len() == 0 {
        nodes.len() == 0
    } else {
        let mid = (children.len() / 2) as int;
        ||| {
            &&& children.len() <= CAPACITY
            &&& nodes.len() == 1
            &&& nodes[0].children@ == children
            &&& nodes[0].node is Internal
        }
        ||| {
            &&& children.len() > 1
            &&& children.len() > CAPACITY || group_refused(codec, level, children)
            &&& exists|k: int|
                {
                    &&& 0 <= k <= nodes.len()
                    &&& grouped(codec, level, children.take(mid), #[trigger] nodes.take(k))
                    &&& grouped(codec, level, children.skip(mid), nodes.skip(k))
                }
        }
    }
}

proof fn lemma_groups_join<C: PageMapCodec>(
    codec: &C,
    level: u32,
    all: Seq<Arc<Tree>>,
    mid: int,
    first: Seq<Arc<Tree>>,
    second: Seq<Arc<Tree>>,
)
    requires
        level > 0,
        all.len() > 1,
        mid == (all.len() / 2) as int,
        forest_wf(all, (level - 1) as u32),
        all.len() > CAPACITY || group_refused(codec, level, all),
        forest_wf(first, level),
        forest_wf(second, level),
        entries_of(first) == entries_of(all.take(mid)),
        entries_of(second) == entries_of(all.skip(mid)),
        grouped(codec, level, all.take(mid), first),
        grouped(codec, level, all.skip(mid), second),
    ensures
        forest_wf(first + second, level),
        entries_of(first + second) == entries_of(all),
        grouped(codec, level, all, first + second),
{
    let nodes = first + second;
    lemma_forest_split(all, (level - 1) as u32, mid);
    lemma_forest_ordered(all.take(mid), (level - 1) as u32);
    lemma_forest_ordered(all.skip(mid), (level - 1) as u32);
    lemma_forest_ordered(first, level);
    lemma_forest_ordered(second, level);
    lemma_forest_join(first, second, level);
    let k = first.len() as int;
    assert(nodes.take(k) =~= first);
    assert(nodes.skip(k) =~= second);
}

/// Whatever covers `before` with the addresses in `old_keys` covers `after`
/// with those in `new_keys`.
pub open spec fn stays_covered(
    before: Seq<Arc<Tree>>,
    old_keys: Set<Seq<char>>,
    after: Seq<Arc<Tree>>,
    new_keys: Set<Seq<char>>,
) -> bool {
    forall|known: Set<ReferenceView>| #[trigger]
        forest_covered(before, known, old_keys) ==> forest_covered(after, known, new_keys)
}

fn branches(children: &Vec<Arc<Tree>>) -> (entries: Vec<PageMapBranch>)
    ensures
        branches_match(entries@, children@),
{
    let mut entries: Vec<PageMapBranch> = Vec::new();
    let mut i: usize = 0;
    while i < children.len()
        invariant
            i <= children@.len(),
            branches_match(entries@, children@.take(i as int)),
        decreases children@.len() - i,
    {
        entries.push(
            PageMapBranch { max_page: children[i].max, child: children[i].reference.clone() },
        );
        i = i + 1;
    }
    assert(children@.take(i as int) =~= children@);
    entries
}

/// Writes subtrees under as few nodes as capacity and codec allow when runs
/// are only divided at their midpoint.
pub fn internal_nodes<C: PageMapCodec>(
    codec: &C,
    children: Vec<Arc<Tree>>,
    level: u32,
    artifacts: &mut Artifacts,
) -> (r: Result<Vec<Arc<Tree>>, RuntimeError>)
    requires
        old(artifacts).wf(),
        level > 0,
        forest_wf(children@, (level - 1) as u32),
    ensures
        final(artifacts).wf(),
        old(artifacts)@.dom().subset_of(final(artifacts)@.dom()),
        match r {
            Ok(nodes) => {
                &&& forest_wf(nodes@, level)
                &&& entries_of(nodes@) == entries_of(children@)
                &&& grouped(codec, level, children@, nodes@)
                &&& stays_covered(
                    children@,
                    old(artifacts)@.dom(),
                    nodes@,
                    final(artifacts)@.dom(),
                )
                &&& authentic(old(artifacts)@) ==> authentic(final(artifacts)@)
            },
            Err(e) => group_error(codec, level, children@, e),
        },
    decreases children@.len(),
{
    if children.len() == 0 {
        return Ok(Vec::new());
    }
    let ghost all = children@;
    let ghost old_keys = artifacts@.dom();
    let node = PageMapNode::Internal { level, entries: branches(&children) };
    proof {
        assert(all.subrange(0, all.len() as int) =~= all);
        assert(group_run(node, level, all, 0, all.len() as int));
    }
    match codec.validate(&node) {
        Err(e) => {
            assert(node_refused(codec, node, e));
            return Err(e);
        },
        Ok(()) => {},
    }
    if children.len() <= CAPACITY {
        match create_tree(codec, node, copy_trees(&children), artifacts) {
            Ok(tree) => {
                let mut nodes: Vec<Arc<Tree>> = Vec::new();
                nodes.push(tree);
                proof {
                    assert(tree.wf());
                    assert(nodes@ =~= seq![tree]);
                    assert forall|known: Set<ReferenceView>| #[trigger]
                        forest_covered(all, known, old_keys) implies forest_covered(
                        nodes@,
                        known,
                        artifacts@.dom(),
                    ) by {
                        lemma_forest_covered_more(all, known, old_keys, known, artifacts@.dom());
                        assert(tree_covered(*tree, known, artifacts@.dom()));
                        lemma_one_tree(tree, known, artifacts@.dom());
                    }
                    lemma_one_forest(tree);
                }
                return Ok(nodes);
            },
            Err(e) => {
                assert(node_refused(codec, node, e));
                if children.len() == 1 {
                    return Err(e);
                }
                assert(group_refused(codec, level, all));
            },
        }
    }
    let mut left = children;
    let mid: usize = left.len() / 2;
    let right = left.split_off(mid);
    assert(left@ =~= all.take(mid as int));
    assert(right@ =~= all.skip(mid as int));
    proof {
        lemma_forest_split(all, (level - 1) as u32, mid as int);
        assert(left@ =~= all.subrange(0, mid as int));
        assert(right@ =~= all.subrange(mid as int, all.len() as int));
    }
    let ghost keys_between = artifacts@.dom();
    let mut nodes = match internal_nodes(codec, left, level, artifacts) {
        Err(e) => {
            proof {
                lemma_group_error_part(codec, level, all, 0, mid as int, e);
            }
            return Err(e);
        },
        Ok(nodes) => nodes,
    };
    let ghost first = nodes@;
    let ghost middle = artifacts@.dom();
    let mut more = match internal_nodes(codec, right, level, artifacts) {
        Err(e) => {
            proof {
                lemma_group_error_part(codec, level, all, mid as int, all.len() as int, e);
            }
            return Err(e);
        },
        Ok(nodes) => nodes,
    };
    let ghost second = more@;
    nodes.append(&mut more);
    proof {
        assert(nodes@ =~= first + second);
        lemma_groups_join(codec, level, all, mid as int, first, second);
        assert forall|known: Set<ReferenceView>| #[trigger]
            forest_covered(all, known, old_keys) implies forest_covered(
            nodes@,
            known,
            artifacts@.dom(),
        ) by {
            let new = artifacts@.dom();
            lemma_forest_covered_split(all, mid as int, known, old_keys);
            lemma_forest_covered_more(all.take(mid as int), known, old_keys, known, keys_between);
            lemma_forest_covered_more(all.skip(mid as int), known, old_keys, known, middle);
            lemma_forest_covered_more(first, known, middle, known, new);
            lemma_forest_covered_join(first, second, known, new);
        }
    }
    Ok(nodes)
}

// ---------------------------------------------------------------- updating

/// Whether an entry for page `n` is there.
pub open spec fn maps_page(entries: Seq<PageMapEntry>, n: u64) -> bool {
    exists|i: int| 0 <= i < entries.len() && (#[trigger] entries[i]).page_number == n
}

/// `merged` holds the changes, and of the former entries those up to `eof`
/// that no change replaces, in order.
pub open spec fn is_merge(
    merged: Seq<PageMapEntry>,
    former: Seq<PageMapEntry>,
    changes: Seq<PageMapEntry>,
    eof: u64,
) -> bool {
    &&& sorted(merged)
    &&& forall|e: PageMapEntry| #[trigger]
        merged.contains(e) <==> changes.contains(e) || (former.contains(e) && e.page_number <= eof
            && !maps_page(changes, e.page_number))
}

/// Order and contents determine a list of entries.
pub proof fn lemma_sorted_unique(a: Seq<PageMapEntry>, b: Seq<PageMapEntry>)
    requires
        sorted(a),
        sorted(b),
        forall|e: PageMapEntry| #[trigger] a.contains(e) <==> b.contains(e),
    ensures
        a == b,
    decreases a.len(),
{
    if a.len() == 0 {
        if b.len() > 0 {
            assert(b.contains(b[0]));
            assert(a.contains(b[0]));
        }
        assert(a =~= b);
    } else {
        assert(a.contains(a.last()));
        assert(b.contains(a.last()));
        let j = choose|j: int| 0 <= j < b.len() && b[j] == a.last();
        assert(b.contains(b.last()));
        assert(a.contains(b.last()));
        let i = choose|i: int| 0 <= i < a.len() && a[i] == b.last();
        assert(j == b.len() - 1) by {
            if j < b.len() - 1 {
                assert(b[j].page_number < b.last().page_number);
                if i < a.len() - 1 {
                    assert(a[i].page_number < a.last().page_number);
                }
            }
        }
        let a1 = a.drop_last();
        let b1 = b.drop_last();
        assert forall|e: PageMapEntry| #[trigger] a1.contains(e) <==> b1.contains(e) by {
            if a1.contains(e) {
                let k = choose|k: int| 0 <= k < a1.len() && a1[k] == e;
                assert(a[k] == e);
                assert(a.contains(e));
                let l = choose|l: int| 0 <= l < b.len() && b[l] == e;
                assert(a[k].page_number < a.last().page_number);
                assert(l < b.len() - 1);
                assert(b1[l] == e);
            }
            if b1.contains(e) {
                let k = choose|k: int| 0 <= k < b1.len() && b1[k] == e;
                assert(b[k] == e);
                assert(b.contains(e));
                assert(a.contains(e));
                let l = choose|l: int| 0 <= l < a.len() && a[l] == e;
                assert(b[k].page_number < b.last().page_number);
                assert(l < a.len() - 1);
                assert(a1[l] == e);
            }
        }
        lemma_sorted_unique(a1, b1);
        assert(a =~= a1.push(a.last()));
        assert(b =~= b1.push(b.last()));
    }
}

/// The merge of a leaf's entries with the changes that fall to it.
fn merge(former: &Vec<PageMapEntry>, changes: &[PageMapEntry], eof: u64) -> (merged: Vec<
    PageMapEntry,
>)
    requires
        sorted(former@),
        sorted(changes@),
    ensures
        is_merge(merged@, former@, changes@, eof),
{
    let mut merged: Vec<PageMapEntry> = Vec::new();
    let mut i: usize = 0;
    let mut j: usize = 0;
    while i < former.len() || j < changes.len()
        invariant
            i <= former@.len(),
            j <= changes@.len(),
            sorted(former@),
            sorted(changes@),
            sorted(merged@),
            forall|k: int, l: int|
                #![trigger merged@[k], former@[l]]
                0 <= k < merged@.len() && i <= l < former@.len() ==> merged@[k].page_number
                    < former@[l].page_number,
            forall|k: int, l: int|
                #![trigger merged@[k], changes@[l]]
                0 <= k < merged@.len() && j <= l < changes@.len() ==> merged@[k].page_number
                    < changes@[l].page_number,
            forall|k: int, l: int|
                #![trigger former@[k], changes@[l]]
                0 <= k < i && j <= l < changes@.len() ==> former@[k].page_number
                    < changes@[l].page_number,
            forall|e: PageMapEntry| #[trigger]
                merged@.contains(e) <==> changes@.take(j as int).contains(e) || (former@.take(
                    i as int,
                ).contains(e) && e.page_number <= eof && !maps_page(changes@, e.page_number)),
        decreases former@.len() - i + changes@.len() - j,
    {
        let ghost before = merged@;
        let take_change: bool = if j < changes.len() {
            i >= former.len() || changes[j].page_number <= former[i].page_number
        } else {
            false
        };
        if take_change {
            if i < former.len() && changes[j].page_number == former[i].page_number {
                proof {
                    assert(maps_page(changes@, former@[i as int].page_number));
                    assert(former@.take(i + 1) =~= former@.take(i as int).push(former@[i as int]));
                    lemma_push_contains(former@.take(i as int), former@[i as int]);
                }
                i = i + 1;
            }
            let entry = changes[j].clone();
            proof {
                lemma_push_contains(before, entry);
                assert(changes@.take(j + 1) =~= changes@.take(j as int).push(changes@[j as int]));
                lemma_push_contains(changes@.take(j as int), changes@[j as int]);
            }
            merged.push(entry);
            j = j + 1;
        } else {
            proof {
                assert(former@.take(i + 1) =~= former@.take(i as int).push(former@[i as int]));
                lemma_push_contains(former@.take(i as int), former@[i as int]);
                lemma_push_contains(before, former@[i as int]);
                assert(!maps_page(changes@, former@[i as int].page_number)) by {
                    if maps_page(changes@, former@[i as int].page_number) {
                        let l = choose|l: int|
                            0 <= l < changes@.len() && (#[trigger] changes@[l]).page_number
                                == former@[i as int].page_number;
                        if l < j {
                            assert(changes@.take(j as int)[l] == changes@[l]);
                            assert(changes@.take(j as int).contains(changes@[l]));
                            assert(before.contains(changes@[l]));
                            let k = choose|k: int| 0 <= k < before.len() && before[k] == changes@[l];
                            assert(before[k].page_number < former@[i as int].page_number);
                        } else {
                            assert(former@[i as int].page_number < changes@[j as int].page_number);
                            assert(j == l || changes@[j as int].page_number
                                < changes@[l].page_number);
                        }
                    }
                }
            }
            if former[i].page_number <= eof {
                merged.push(former[i].clone());
            }
            i = i + 1;
        }
    }
    proof {
        assert(changes@.take(j as int) =~= changes@);
        assert(former@.take(i as int) =~= former@);
    }
    merged
}

proof fn lemma_push_contains(s: Seq<PageMapEntry>, x: PageMapEntry)
    ensures
        forall|e: PageMapEntry| #[trigger] s.push(x).contains(e) <==> s.contains(e) || e == x,
{
    assert forall|e: PageMapEntry| #[trigger] s.push(x).contains(e) <==> s.contains(e) || e
        == x by {
        if s.contains(e) {
            let k = choose|k: int| 0 <= k < s.len() && s[k] == e;
            assert(s.push(x)[k] == e);
        }
        if e == x {
            assert(s.push(x)[s.len() as int] == e);
        }
    }
}

/// Entries lie in packs that are known or new.
pub open spec fn entries_covered(
    entries: Seq<PageMapEntry>,
    known: Set<ReferenceView>,
    new: Set<Seq<char>>,
) -> bool {
    forall|i: int|
        0 <= i < entries.len() ==> object_covered((#[trigger] entries[i]).pack, known, new)
}

/// Whatever covers the tree and the changes covers the updated trees.
pub open spec fn update_covered(
    tree: Tree,
    changes: Seq<PageMapEntry>,
    old_keys: Set<Seq<char>>,
    nodes: Seq<Arc<Tree>>,
    new_keys: Set<Seq<char>>,
) -> bool {
    forall|known: Set<ReferenceView>|
        tree_covered(tree, known, old_keys) && entries_covered(changes, known, old_keys)
            ==> #[trigger] forest_covered(nodes, known, new_keys)
}

proof fn lemma_join_contains(a: Seq<PageMapEntry>, b: Seq<PageMapEntry>)
    ensures
        forall|e: PageMapEntry| #[trigger] (a + b).contains(e) <==> a.contains(e) || b.contains(e),
{
    assert forall|e: PageMapEntry| #[trigger] (a + b).contains(e) <==> a.contains(e)
        || b.contains(e) by {
        if (a + b).contains(e) {
            let k = choose|k: int| 0 <= k < (a + b).len() && (a + b)[k] == e;
            if k < a.len() {
                assert(a[k] == e);
            } else {
                assert(b[k - a.len()] == e);
            }
        }
        if a.contains(e) {
            let k = choose|k: int| 0 <= k < a.len() && a[k] == e;
            assert((a + b)[k] == e);
        }
        if b.contains(e) {
            let k = choose|k: int| 0 <= k < b.len() && b[k] == e;
            assert((a + b)[a.len() + k] == e);
        }
    }
}

/// All pages are at most `bound`.
pub open spec fn at_most(entries: Seq<PageMapEntry>, bound: u64) -> bool {
    forall|i: int| 0 <= i < entries.len() ==> (#[trigger] entries[i]).page_number <= bound
}

/// All pages are above `bound`.
pub open spec fn above(entries: Seq<PageMapEntry>, bound: u64) -> bool {
    forall|i: int| 0 <= i < entries.len() ==> (#[trigger] entries[i]).page_number > bound
}

/// Merges of consecutive parts make up the merge of the whole, where a bound
/// separates the parts.
proof fn lemma_merge_join(
    m1: Seq<PageMapEntry>,
    f1: Seq<PageMapEntry>,
    c1: Seq<PageMapEntry>,
    m2: Seq<PageMapEntry>,
    f2: Seq<PageMapEntry>,
    c2: Seq<PageMapEntry>,
    bound: u64,
    eof: u64,
)
    requires
        is_merge(m1, f1, c1, eof),
        is_merge(m2, f2, c2, eof),
        at_most(f1, bound),
        at_most(c1, bound),
        above(f2, bound),
        above(c2, bound),
    ensures
        is_merge(m1 + m2, f1 + f2, c1 + c2, eof),
        at_most(m1, bound),
        above(m2, bound),
{
    lemma_merge_bounds(m1, f1, c1, eof);
    lemma_merge_bounds(m2, f2, c2, eof);
    assert(at_most(m1, bound)) by {
        assert forall|i: int| 0 <= i < m1.len() implies (#[trigger] m1[i]).page_number <= bound by {
            assert(m1.contains(m1[i]));
            if c1.contains(m1[i]) {
                let k = choose|k: int| 0 <= k < c1.len() && c1[k] == m1[i];
            } else {
                let k = choose|k: int| 0 <= k < f1.len() && f1[k] == m1[i];
            }
        }
    }
    assert(above(m2, bound)) by {
        assert forall|i: int| 0 <= i < m2.len() implies (#[trigger] m2[i]).page_number > bound by {
            assert(m2.contains(m2[i]));
            if c2.contains(m2[i]) {
                let k = choose|k: int| 0 <= k < c2.len() && c2[k] == m2[i];
            } else {
                let k = choose|k: int| 0 <= k < f2.len() && f2[k] == m2[i];
            }
        }
    }
    lemma_join_contains(m1, m2);
    lemma_join_contains(f1, f2);
    lemma_join_contains(c1, c2);
    let m = m1 + m2;
    assert forall|e: PageMapEntry| #[trigger] m.contains(e) <==> (c1 + c2).contains(e) || ((f1
        + f2).contains(e) && e.page_number <= eof && !maps_page(c1 + c2, e.page_number)) by {
        lemma_maps_join(c1, c2, e.page_number);
        if f1.contains(e) {
            let k = choose|k: int| 0 <= k < f1.len() && f1[k] == e;
            assert(!maps_page(c2, e.page_number));
        }
        if f2.contains(e) {
            let k = choose|k: int| 0 <= k < f2.len() && f2[k] == e;
            assert(!maps_page(c1, e.page_number));
        }
        assert(m.contains(e) <==> m1.contains(e) || m2.contains(e));
    }
}

proof fn lemma_maps_join(a: Seq<PageMapEntry>, b: Seq<PageMapEntry>, n: u64)
    ensures
        maps_page(a + b, n) <==> maps_page(a, n) || maps_page(b, n),
{
    if maps_page(a + b, n) {
        let k = choose|k: int| 0 <= k < (a + b).len() && (#[trigger] (a + b)[k]).page_number == n;
        if k < a.len() {
            assert(a[k].page_number == n);
        } else {
            assert(b[k - a.len()].page_number == n);
        }
    }
    if maps_page(a, n) {
        let k = choose|k: int| 0 <= k < a.len() && (#[trigger] a[k]).page_number == n;
        assert((a + b)[k].page_number == n);
    }
    if maps_page(b, n) {
        let k = choose|k: int| 0 <= k < b.len() && (#[trigger] b[k]).page_number == n;
        assert((a + b)[a.len() + k].page_number == n);
    }
}

proof fn lemma_merge_bounds(
    m: Seq<PageMapEntry>,
    f: Seq<PageMapEntry>,
    c: Seq<PageMapEntry>,
    eof: u64,
)
    requires
        is_merge(m, f, c, eof),
    ensures
        forall|i: int|
            0 <= i < m.len() ==> c.contains(#[trigger] m[i]) || f.contains(m[i]),
{
    assert forall|i: int| 0 <= i < m.len() implies c.contains(#[trigger] m[i]) || f.contains(
        m[i],
    ) by {
        assert(m.contains(m[i]));
    }
}

/// The leading changes up to page `bound`.
fn changes_up_to(changes: &[PageMapEntry], from: usize, bound: u64) -> (end: usize)
    requires
        from <= changes@.len(),
        sorted(changes@),
    ensures
        from <= end <= changes@.len(),
        at_most(changes@.subrange(from as int, end as int), bound),
        above(changes@.skip(end as int), bound),
{
    let mut end: usize = from;
    while end < changes.len()
        invariant
            from <= end <= changes@.len(),
            at_most(changes@.subrange(from as int, end as int), bound),
        ensures
            from <= end <= changes@.len(),
            at_most(changes@.subrange(from as int, end as int), bound),
            end < changes@.len() ==> changes@[end as int].page_number > bound,
        decreases changes@.len() - end,
    {
        if changes[end].page_number > bound {
            break;
        }
        assert(changes@.subrange(from as int, end + 1) =~= changes@.subrange(
            from as int,
            end as int,
        ).push(changes@[end as int]));
        end = end + 1;
    }
    assert(above(changes@.skip(end as int), bound)) by {
        let rest = changes@.skip(end as int);
        assert forall|i: int| 0 <= i < rest.len() implies (#[trigger] rest[i]).page_number
            > bound by {
            assert(rest[i] == changes@[end + i]);
            if i > 0 {
                assert(changes@[end as int].page_number < changes@[end + i].page_number);
            }
        }
    }
    end
}

/// Bounds of the entries of the first `i` trees, and of the trees after them.
proof fn lemma_forest_bounds(trees: Seq<Arc<Tree>>, level: u32, i: int)
    requires
        forest_wf(trees, level),
        0 < i <= trees.len(),
    ensures
        at_most(entries_of(trees.take(i)), trees[i - 1].max),
        i < trees.len() ==> above(trees[i].entries(), trees[i - 1].max),
        i < trees.len() ==> at_most(trees[i].entries(), trees[i].max),
        i < trees.len() ==> trees[i - 1].max < trees[i].max,
        i < trees.len() ==> entries_of(trees.take(i + 1)) == entries_of(trees.take(i))
            + trees[i].entries(),
{
    lemma_forest_split(trees, level, i);
    lemma_forest_ordered(trees.take(i), level);
    assert(trees.take(i).last() == trees[i - 1]);
    let head = entries_of(trees.take(i));
    assert forall|k: int| 0 <= k < head.len() implies (#[trigger] head[k]).page_number <= trees[i
        - 1].max by {
        if k < head.len() - 1 {
            assert(head[k].page_number < head.last().page_number);
        }
    }
    if i < trees.len() {
        lemma_forest_member(trees, level, i);
        lemma_forest_member(trees, level, i - 1);
        lemma_tree_ordered(trees[i]);
        let own = trees[i].entries();
        assert forall|k: int| 0 <= k < own.len() implies trees[i - 1].max < (
        #[trigger] own[k]).page_number && own[k].page_number <= trees[i].max by {
            if k > 0 {
                assert(own[0].page_number < own[k].page_number);
            }
            if k < own.len() - 1 {
                assert(own[k].page_number < own.last().page_number);
            }
        }
        assert(trees.take(i + 1).drop_last() =~= trees.take(i));
        assert(trees.take(i + 1).last() == trees[i]);
    }
}

proof fn lemma_merge_no_changes(tree: Arc<Tree>, eof: u64)
    requires
        tree.wf(),
    ensures
        tree.max <= eof ==> is_merge(tree.entries(), tree.entries(), Seq::empty(), eof),
        tree.min > eof ==> is_merge(Seq::empty(), tree.entries(), Seq::empty(), eof),
{
    lemma_tree_ordered(tree);
    let own = tree.entries();
    assert forall|e: PageMapEntry| own.contains(e) implies tree.min <= e.page_number
        && e.page_number <= tree.max by {
        let k = choose|k: int| 0 <= k < own.len() && own[k] == e;
        if k > 0 {
            assert(own[0].page_number < own[k].page_number);
        }
        if k < own.len() - 1 {
            assert(own[k].page_number < own.last().page_number);
        }
    }
    let none: Seq<PageMapEntry> = Seq::empty();
    assert forall|e: PageMapEntry| !none.contains(e) && !maps_page(none, e.page_number) by {}
    if tree.max <= eof {
        assert forall|e: PageMapEntry| #[trigger] own.contains(e) <==> none.contains(e) || (
        own.contains(e) && e.page_number <= eof && !maps_page(none, e.page_number)) by {}
    }
    if tree.min > eof {
        assert forall|e: PageMapEntry| #[trigger] none.contains(e) <==> none.contains(e) || (
        own.contains(e) && e.page_number <= eof && !maps_page(none, e.page_number)) by {}
    }
}

/// The trees that follow from one by changes and a new end. Where neither touches
/// it, it stays as it is; where all of it lies behind the end, nothing stays. The
/// merged entries of a leaf are divided as new leaves are; the subtrees of a node
/// follow each from its own, and are grouped as new nodes are.
pub open spec fn updated<C: PageMapCodec>(
    codec: &C,
    tree: Tree,
    changes: Seq<PageMapEntry>,
    eof: u64,
    nodes: Seq<Arc<Tree>>,
) -> bool
    decreases tree,
{
    if changes.len() == 0 && tree.max <= eof {
        nodes.len() == 1 && *nodes[0] == tree
    } else if changes.len() == 0 && tree.min > eof {
        nodes.len() == 0
    } else {
        match tree.node {
            PageMapNode::Leaf { entries } => exists|merged: Seq<PageMapEntry>|
                {
                    &&& #[trigger] is_merge(merged, entries@, changes, eof)
                    &&& divided(codec, merged, nodes)
                },
            PageMapNode::Internal { level, .. } => exists|kids: Seq<Arc<Tree>>|
                {
                    &&& #[trigger] grouped(codec, level, kids, nodes)
                    &&& forest_updated(codec, tree.children@, changes, eof, kids)
                },
        }
    }
}

/// Consecutive trees after changes: each takes the changes behind the last page of
/// the tree before it.
pub open spec fn forest_updated<C: PageMapCodec>(
    codec: &C,
    trees: Seq<Arc<Tree>>,
    changes: Seq<PageMapEntry>,
    eof: u64,
    nodes: Seq<Arc<Tree>>,
) -> bool
    decreases trees,
{
    if trees.len() == 0 {
        changes.len() == 0 && nodes.len() == 0
    } else {
        exists|at: int, k: int|
            {
                &&& 0 <= at <= changes.len()
                &&& 0 <= k <= nodes.len()
                &&& trees.len() > 1 ==> at_most(changes.take(at), trees[trees.len() - 2].max)
                    && above(changes.skip(at), trees[trees.len() - 2].max)
                &&& forest_updated(
                    codec,
                    trees.drop_last(),
                    #[trigger] changes.take(at),
                    eof,
                    #[trigger] nodes.take(k),
                )
                &&& updated(codec, *trees.last(), changes.skip(at), eof, nodes.skip(k))
            }
    }
}

/// The codec refused a node that an update makes: a leaf of merged entries, a node
/// over updated subtrees, or one further down. An update makes none where changes
/// and end leave a tree as it is, or leave nothing of it.
pub open spec fn update_error<C: PageMapCodec>(
    codec: &C,
    tree: Tree,
    changes: Seq<PageMapEntry>,
    eof: u64,
    e: RuntimeError,
) -> bool
    decreases tree,
{
    &&& changes.len() > 0 || tree.min <= eof < tree.max
    &&& match tree.node {
        PageMapNode::Leaf { entries } => exists|merged: Seq<PageMapEntry>|
            {
                &&& #[trigger] is_merge(merged, entries@, changes, eof)
                &&& leaf_error(codec, merged, e)
            },
        PageMapNode::Internal { level, .. } => {
            ||| forest_error(codec, tree.children@, changes, eof, e)
            ||| exists|kids: Seq<Arc<Tree>>|
                {
                    &&& #[trigger] forest_updated(codec, tree.children@, changes, eof, kids)
                    &&& group_error(codec, level, kids, e)
                }
        },
    }
}

/// The codec refused a node that an update of one of the trees makes.
pub open spec fn forest_error<C: PageMapCodec>(
    codec: &C,
    trees: Seq<Arc<Tree>>,
    changes: Seq<PageMapEntry>,
    eof: u64,
    e: RuntimeError,
) -> bool
    decreases trees,
{
    trees.len() > 0 && {
        ||| exists|at: int|
            0 <= at <= changes.len() && update_error(
                codec,
                *trees.last(),
                #[trigger] changes.skip(at),
                eof,
                e,
            )
        ||| exists|at: int|
            0 <= at <= changes.len() && forest_error(
                codec,
                trees.drop_last(),
                #[trigger] changes.take(at),
                eof,
                e,
            )
    }
}

proof fn lemma_forest_error_more<C: PageMapCodec>(
    codec: &C,
    trees: Seq<Arc<Tree>>,
    changes: Seq<PageMapEntry>,
    eof: u64,
    e: RuntimeError,
    n: int,
    at: int,
)
    requires
        0 <= n <= trees.len(),
        0 <= at <= changes.len(),
        n == trees.len() ==> at == changes.len(),
        forest_error(codec, trees.take(n), changes.take(at), eof, e),
    ensures
        forest_error(codec, trees, changes, eof, e),
    decreases trees.len() - n,
{
    if n == trees.len() {
        assert(trees.take(n) =~= trees);
        assert(changes.take(at) =~= changes);
    } else {
        let more = trees.take(n + 1);
        assert(more.drop_last() =~= trees.take(n));
        assert(forest_error(codec, more.drop_last(), changes.take(at), eof, e));
        assert(forest_error(codec, more, changes, eof, e));
        assert(changes.take(changes.len() as int) =~= changes);
        lemma_forest_error_more(codec, trees, changes, eof, e, n + 1, changes.len() as int);
    }
}

/// Applies changes to a tree and drops pages after `eof`. Subtrees that
/// neither touches are taken over as they are.
pub fn update<C: PageMapCodec>(
    codec: &C,
    tree: &Arc<Tree>,
    changes: &[PageMapEntry],
    eof: u64,
    artifacts: &mut Artifacts,
) -> (r: Result<Vec<Arc<Tree>>, RuntimeError>)
    requires
        old(artifacts).wf(),
        tree.wf(),
        sorted(changes@),
    ensures
        final(artifacts).wf(),
        old(artifacts)@.dom().subset_of(final(artifacts)@.dom()),
        changes@.len() == 0 && tree.max <= eof ==> {
            &&& r matches Ok(nodes) && nodes@ == seq![*tree]
            &&& final(artifacts)@ == old(artifacts)@
        },
        match r {
            Ok(nodes) => {
                &&& forest_wf(nodes@, tree.level())
                &&& is_merge(entries_of(nodes@), tree.entries(), changes@, eof)
                &&& updated(codec, **tree, changes@, eof, nodes@)
                &&& update_covered(
                    **tree,
                    changes@,
                    old(artifacts)@.dom(),
                    nodes@,
                    final(artifacts)@.dom(),
                )
                &&& authentic(old(artifacts)@) ==> authentic(final(artifacts)@)
            },
            Err(e) => update_error(codec, **tree, changes@, eof, e),
        },
    decreases tree,
{
    proof {
        lemma_merge_no_changes(*tree, eof);
        if changes@.len() == 0 {
            assert(changes@ =~= Seq::<PageMapEntry>::empty());
        }
    }
    if changes.len() == 0 && tree.max <= eof {
        let mut nodes: Vec<Arc<Tree>> = Vec::new();
        nodes.push(share(tree));
        proof {
            assert(nodes@ =~= seq![*tree]);
            lemma_one_forest(*tree);
            assert forall|known: Set<ReferenceView>|
                tree_covered(**tree, known, old(artifacts)@.dom()) && entries_covered(
                    changes@,
                    known,
                    old(artifacts)@.dom(),
                ) implies #[trigger] forest_covered(nodes@, known, artifacts@.dom()) by {
                lemma_one_tree(*tree, known, artifacts@.dom());
            }
        }
        return Ok(nodes);
    }
    if tree.min > eof && changes.len() == 0 {
        return Ok(Vec::new());
    }
    match &tree.node {
        PageMapNode::Leaf { entries } => {
            let merged = merge(entries, changes, eof);
            let ghost m = merged@;
            let ghost old_keys = artifacts@.dom();
            assert(is_merge(m, entries@, changes@, eof));
            match leaf_nodes(codec, merged, artifacts) {
                Err(e) => Err(e),
                Ok(leaves) => {
                    proof {
                        let new = artifacts@.dom();
                        assert forall|known: Set<ReferenceView>|
                            tree_covered(**tree, known, old_keys) && entries_covered(
                                changes@,
                                known,
                                old_keys,
                            ) implies #[trigger] forest_covered(leaves@, known, new) by {
                            assert forall|r: ReferenceView| #[trigger]
                                packs_of(m).contains(r) implies known.contains(r) || new.contains(
                                r.uri,
                            ) by {
                                let i = choose|i: int| 0 <= i < m.len() && m[i].pack@ == r;
                                assert(m.contains(m[i]));
                                if changes@.contains(m[i]) {
                                    let k = choose|k: int|
                                        0 <= k < changes@.len() && changes@[k] == m[i];
                                    assert(object_covered(changes@[k].pack, known, old_keys));
                                } else {
                                    let k = choose|k: int|
                                        0 <= k < entries@.len() && entries@[k] == m[i];
                                    assert(object_covered(entries@[k].pack, known, old_keys));
                                }
                            }
                            lemma_forest_covered_more(leaves@, packs_of(m), new, known, new);
                        }
                    }
                    Ok(leaves)
                },
            }
        },
        PageMapNode::Internal { level, .. } => {
            let level: u32 = *level;
            let ghost below = (level - 1) as u32;
            let ghost kids = tree.children@;
            let ghost old_keys = artifacts@.dom();
            let count: usize = tree.children.len();
            let mut nodes: Vec<Arc<Tree>> = Vec::new();
            let mut at: usize = 0;
            let mut i: usize = 0;
            assert(forest_updated(
                codec,
                kids.take(0),
                changes@.take(0),
                eof,
                Seq::<Arc<Tree>>::empty(),
            ));
            assert(nodes@ =~= Seq::<Arc<Tree>>::empty());
            while i < count
                invariant
                    i <= count,
                    count == kids.len(),
                    kids == tree.children@,
                    level > 0,
                    below == level - 1,
                    tree.wf(),
                    tree.node is Internal,
                    tree.node->level == level,
                    sorted(changes@),
                    artifacts.wf(),
                    old_keys == old(artifacts)@.dom(),
                    old_keys.subset_of(artifacts@.dom()),
                    changes@.len() > 0 || tree.max > eof,
                    authentic(old(artifacts)@) ==> authentic(artifacts@),
                    forest_updated(
                        codec,
                        kids.take(i as int),
                        changes@.take(at as int),
                        eof,
                        nodes@,
                    ),
                    at <= changes@.len(),
                    changes@.len() > 0 || tree.min <= eof < tree.max,
                    i == count ==> at == changes@.len(),
                    i == 0 ==> at == 0 && nodes@.len() == 0,
                    forest_wf(kids, below),
                    forest_wf(nodes@, below),
                    is_merge(
                        entries_of(nodes@),
                        entries_of(kids.take(i as int)),
                        changes@.take(at as int),
                        eof,
                    ),
                    0 < i < count ==> {
                        &&& at_most(changes@.take(at as int), kids[i - 1].max)
                        &&& above(changes@.skip(at as int), kids[i - 1].max)
                    },
                    forall|known: Set<ReferenceView>|
                        forest_covered(kids, known, old_keys) && entries_covered(
                            changes@,
                            known,
                            old_keys,
                        ) ==> #[trigger] forest_covered(nodes@, known, artifacts@.dom()),
                decreases count - i,
            {
                let child = &tree.children[i];
                let end: usize = if i + 1 == count {
                    changes.len()
                } else {
                    changes_up_to(changes, at, child.max)
                };
                let here = &changes[at..end];
                let ghost keys_before = artifacts@.dom();
                let ghost nodes_before = nodes@;
                proof {
                    lemma_forest_member(kids, below, i as int);
                }
                proof {
                    assert(changes@.take(end as int).skip(at as int) =~= here@);
                    assert(kids.take(i + 1).drop_last() =~= kids.take(i as int));
                    assert(kids.take(i + 1).last() == kids[i as int]);
                }
                let mut follow = match update(codec, child, here, eof, artifacts) {
                    Err(e) => {
                        proof {
                            let seen = changes@.take(end as int);
                            assert(update_error(codec, *kids.take(i + 1).last(), seen.skip(at as int), eof, e));
                            assert(forest_error(codec, kids.take(i + 1), seen, eof, e));
                            lemma_forest_error_more(codec, kids, changes@, eof, e, i + 1, end as int);
                        }
                        return Err(e);
                    },
                    Ok(follow) => follow,
                };
                let ghost fresh = follow@;
                nodes.append(&mut follow);
                proof {
                    assert(nodes@ =~= nodes_before + fresh);
                    assert(here@ == changes@.subrange(at as int, end as int));
                    assert(changes@.take(end as int) =~= changes@.take(at as int) + here@);
                    let parts = kids.take(i as int);
                    if i > 0 {
                        let bound = kids[i - 1].max;
                        lemma_forest_bounds(kids, below, i as int);
                        assert(above(here@, bound)) by {
                            assert forall|k: int| 0 <= k < here@.len() implies (
                            #[trigger] here@[k]).page_number > bound by {
                                assert(here@[k] == changes@.skip(at as int)[k]);
                            }
                        }
                        lemma_merge_join(
                            entries_of(nodes_before),
                            entries_of(parts),
                            changes@.take(at as int),
                            entries_of(fresh),
                            kids[i as int].entries(),
                            here@,
                            bound,
                            eof,
                        );
                        lemma_forest_ordered(nodes_before, below);
                        lemma_forest_ordered(fresh, below);
                        if nodes_before.len() > 0 && fresh.len() > 0 {
                            assert(entries_of(nodes_before).last().page_number <= bound);
                            assert(entries_of(fresh)[0].page_number > bound);
                        }
                        lemma_forest_join(nodes_before, fresh, below);
                    } else {
                        assert(nodes_before =~= Seq::<Arc<Tree>>::empty());
                        assert(nodes@ =~= fresh);
                        assert(parts =~= Seq::<Arc<Tree>>::empty());
                        assert(entries_of(parts) =~= Seq::<PageMapEntry>::empty());
                        assert(entries_of(kids.take(i + 1)) =~= kids[i as int].entries());
                        assert(changes@.take(end as int) =~= here@);
                    }
                    assert(forest_updated(
                        codec,
                        kids.take(i + 1),
                        changes@.take(end as int),
                        eof,
                        nodes@,
                    )) by {
                        let seen = changes@.take(end as int);
                        let k = nodes_before.len() as int;
                        assert(seen.take(at as int) =~= changes@.take(at as int));
                        assert(nodes@.take(k) =~= nodes_before);
                        assert(nodes@.skip(k) =~= fresh);
                        if i > 0 {
                            assert(kids.take(i + 1)[i - 1] == kids[i - 1]);
                            assert(above(seen.skip(at as int), kids[i - 1].max)) by {
                                assert forall|j: int| 0 <= j < here@.len() implies (
                                #[trigger] here@[j]).page_number > kids[i - 1].max by {
                                    assert(here@[j] == changes@.skip(at as int)[j]);
                                }
                            }
                        }
                    }
                    if i + 1 < count {
                        let bound = kids[i as int].max;
                        assert(at_most(changes@.take(end as int), bound)) by {
                            let head = changes@.take(end as int);
                            if i > 0 {
                                lemma_forest_bounds(kids, below, i as int);
                            }
                            assert forall|k: int| 0 <= k < head.len() implies (
                            #[trigger] head[k]).page_number <= bound by {
                                if k < at {
                                    assert(head[k] == changes@.take(at as int)[k]);
                                } else {
                                    assert(head[k] == here@[k - at]);
                                }
                            }
                        }
                    }
                    assert forall|known: Set<ReferenceView>|
                        forest_covered(kids, known, old_keys) && entries_covered(
                            changes@,
                            known,
                            old_keys,
                        ) implies #[trigger] forest_covered(nodes@, known, artifacts@.dom()) by {
                        let new = artifacts@.dom();
                        assert(forest_covered(nodes_before, known, keys_before));
                        lemma_forest_covered_more(nodes_before, known, keys_before, known, new);
                        lemma_covered_member(kids, known, old_keys, i as int);
                        lemma_covered_more(kids[i as int], known, old_keys, known, keys_before);
                        assert(entries_covered(here@, known, keys_before)) by {
                            assert forall|k: int| 0 <= k < here@.len() implies object_covered(
                                (#[trigger] here@[k]).pack,
                                known,
                                keys_before,
                            ) by {
                                assert(here@[k] == changes@[at + k]);
                            }
                        }
                        assert(forest_covered(fresh, known, new));
                        lemma_forest_covered_join(nodes_before, fresh, known, new);
                    }
                }
                at = end;
                i = i + 1;
            }
            let ghost middle = artifacts@.dom();
            let ghost children_now = nodes@;
            proof {
                assert(kids.take(i as int) =~= kids);
                assert(changes@.take(at as int) =~= changes@);
                assert(forest_updated(codec, kids, changes@, eof, children_now));
            }
            match internal_nodes(codec, nodes, level, artifacts) {
                Err(e) => Err(e),
                Ok(parents) => {
                    proof {
                        assert forall|known: Set<ReferenceView>|
                            tree_covered(**tree, known, old_keys) && entries_covered(
                                changes@,
                                known,
                                old_keys,
                            ) implies #[trigger] forest_covered(
                            parents@,
                            known,
                            artifacts@.dom(),
                        ) by {
                            assert(forest_covered(children_now, known, middle));
                        }
                    }
                    Ok(parents)
                },
            }
        },
    }
}

proof fn lemma_covered_member(
    trees: Seq<Arc<Tree>>,
    known: Set<ReferenceView>,
    new: Set<Seq<char>>,
    i: int,
)
    requires
        forest_covered(trees, known, new),
        0 <= i < trees.len(),
    ensures
        tree_covered(*trees[i], known, new),
    decreases trees,
{
    if i < trees.len() - 1 {
        lemma_covered_member(trees.drop_last(), known, new, i);
        assert(trees.drop_last()[i] == trees[i]);
    }
}

// ------------------------------------------------------- reachable objects

/// Every object that a tree needs, in the order of a walk from the root.
pub open spec fn tree_refs(tree: &Tree) -> Seq<ReferenceView>
    decreases tree,
{
    seq![tree.reference@] + match tree.node {
        PageMapNode::Leaf { entries } => packs_listed(entries@),
        PageMapNode::Internal { .. } => forest_refs(tree.children@),
    }
}

/// The objects below the root of a tree.
spec fn below_refs(tree: Tree) -> Seq<ReferenceView> {
    match tree.node {
        PageMapNode::Leaf { entries } => packs_listed(entries@),
        PageMapNode::Internal { .. } => forest_refs(tree.children@),
    }
}

pub open spec fn packs_listed(entries: Seq<PageMapEntry>) -> Seq<ReferenceView> {
    Seq::new(entries.len(), |i: int| entries[i].pack@)
}

pub open spec fn forest_refs(trees: Seq<Arc<Tree>>) -> Seq<ReferenceView>
    decreases trees,
{
    if trees.len() == 0 {
        Seq::empty()
    } else {
        forest_refs(trees.drop_last()) + tree_refs(&*trees.last())
    }
}

/// Whether the list holds an object with this address.
pub open spec fn has_uri(seen: Seq<ReferenceView>, uri: Seq<char>) -> bool {
    exists|i: int| 0 <= i < seen.len() && (#[trigger] seen[i]).uri == uri
}

/// The list with one more object, which must not give a listed address
/// another digest or length.
pub open spec fn collect_one(seen: Seq<ReferenceView>, r: ReferenceView) -> Option<
    Seq<ReferenceView>,
> {
    if seen.contains(r) {
        Some(seen)
    } else if has_uri(seen, r.uri) {
        None
    } else {
        Some(seen.push(r))
    }
}

/// The list with more objects, each address once.
pub open spec fn collect(seen: Seq<ReferenceView>, refs: Seq<ReferenceView>) -> Option<
    Seq<ReferenceView>,
>
    decreases refs.len(),
{
    if refs.len() == 0 {
        Some(seen)
    } else {
        match collect(seen, refs.drop_last()) {
            None => None,
            Some(before) => collect_one(before, refs.last()),
        }
    }
}

pub proof fn lemma_collect_join(
    seen: Seq<ReferenceView>,
    a: Seq<ReferenceView>,
    b: Seq<ReferenceView>,
)
    ensures
        collect(seen, a + b) == match collect(seen, a) {
            None => None,
            Some(middle) => collect(middle, b),
        },
    decreases b.len(),
{
    if b.len() == 0 {
        assert(a + b =~= a);
    } else {
        assert((a + b).drop_last() =~= a + b.drop_last());
        lemma_collect_join(seen, a, b.drop_last());
    }
}

/// References of which no two have the same address.
pub open spec fn distinct_uris(seen: Seq<ReferenceView>) -> bool {
    forall|i: int, j: int|
        #![trigger seen[i], seen[j]]
        0 <= i < j < seen.len() ==> seen[i].uri != seen[j].uri
}

/// Collecting keeps addresses distinct and loses nothing.
pub proof fn lemma_collect(seen: Seq<ReferenceView>, refs: Seq<ReferenceView>)
    requires
        distinct_uris(seen),
        collect(seen, refs) is Some,
    ensures
        distinct_uris(collect(seen, refs)->0),
        forall|r: ReferenceView| #[trigger]
            collect(seen, refs)->0.contains(r) <==> seen.contains(r) || refs.contains(r),
    decreases refs.len(),
{
    if refs.len() > 0 {
        lemma_collect(seen, refs.drop_last());
        let before = collect(seen, refs.drop_last())->0;
        let after = collect(seen, refs)->0;
        let last = refs.last();
        assert forall|r: ReferenceView| #[trigger] after.contains(r) <==> seen.contains(r)
            || refs.contains(r) by {
            assert(refs =~= refs.drop_last().push(last));
            if before.contains(r) {
                let k = choose|k: int| 0 <= k < before.len() && before[k] == r;
                assert(after[k] == r);
            }
            if refs.drop_last().contains(r) {
                let k = choose|k: int|
                    0 <= k < refs.drop_last().len() && refs.drop_last()[k] == r;
                assert(refs[k] == r);
            }
            if refs.contains(r) && r != last {
                let k = choose|k: int| 0 <= k < refs.len() && refs[k] == r;
                assert(refs.drop_last()[k] == r);
            }
            if r == last {
                if !before.contains(last) {
                    assert(after[before.len() as int] == last);
                }
                assert(refs[refs.len() - 1] == last);
            }
            if after.contains(r) && r != last {
                let k = choose|k: int| 0 <= k < after.len() && after[k] == r;
                assert(before[k] == r);
            }
        }
        assert(distinct_uris(after)) by {
            if !before.contains(last) {
                assert forall|i: int| 0 <= i < before.len() implies (#[trigger] before[i]).uri
                    != last.uri by {}
            }
        }
    }
}

/// The references by view.
pub open spec fn viewed(refs: Seq<PageObjectReference>) -> Seq<ReferenceView> {
    Seq::new(refs.len(), |i: int| refs[i]@)
}

pub(crate) fn add_reference(seen: &mut Vec<PageObjectReference>, reference: &PageObjectReference) -> (r:
    Result<(), RuntimeError>)
    requires
        distinct_uris(viewed(old(seen)@)),
    ensures
        match r {
            Ok(()) => collect_one(viewed(old(seen)@), reference@) == Some(viewed(final(seen)@)),
            Err(e) => {
                &&& collect_one(viewed(old(seen)@), reference@) is None
                &&& e@ == ErrorView::Corrupt("conflicting reachable object references"@)
            },
        },
{
    let ghost before = viewed(seen@);
    let mut i: usize = 0;
    while i < seen.len()
        invariant
            i <= seen@.len(),
            seen@ == old(seen)@,
            before == viewed(seen@),
            distinct_uris(before),
            forall|j: int| 0 <= j < i ==> (#[trigger] before[j]).uri != reference@.uri,
        decreases seen@.len() - i,
    {
        if seen[i].uri == reference.uri {
            assert(before[i as int] == seen@[i as int]@);
            if seen[i] != *reference {
                proof {
                    assert(!before.contains(reference@)) by {
                        if before.contains(reference@) {
                            let k = choose|k: int|
                                0 <= k < before.len() && before[k] == reference@;
                            assert(k == i);
                        }
                    }
                    assert(has_uri(before, reference@.uri));
                }
                return Err(corrupt("conflicting reachable object references"));
            }
            assert(before.contains(reference@));
            return Ok(());
        }
        assert(before[i as int].uri != reference@.uri);
        i = i + 1;
    }
    proof {
        assert(!has_uri(before, reference@.uri));
        assert(!before.contains(reference@)) by {
            if before.contains(reference@) {
                let k = choose|k: int| 0 <= k < before.len() && before[k] == reference@;
                assert(before[k].uri == reference@.uri);
            }
        }
    }
    seen.push(reference.clone());
    assert(viewed(seen@) =~= before.push(reference@));
    Ok(())
}

/// Collects every object that a tree needs.
pub fn reachable(tree: &Tree, seen: &mut Vec<PageObjectReference>) -> (r: Result<(), RuntimeError>)
    requires
        distinct_uris(viewed(old(seen)@)),
    ensures
        match r {
            Ok(()) => {
                &&& collect(viewed(old(seen)@), tree_refs(tree)) == Some(viewed(final(seen)@))
                &&& distinct_uris(viewed(final(seen)@))
            },
            Err(e) => {
                &&& collect(viewed(old(seen)@), tree_refs(tree)) is None
                &&& e@ == ErrorView::Corrupt("conflicting reachable object references"@)
            },
        },
    decreases tree,
{
    let ghost start = viewed(seen@);
    let ghost own = seq![tree.reference@];
    let ghost rest = below_refs(*tree);
    proof {
        lemma_collect_join(start, own, rest);
        reveal_with_fuel(collect, 2);
        assert(own.drop_last() =~= Seq::<ReferenceView>::empty());
        assert(collect(start, own) == collect_one(start, tree.reference@));
    }
    match add_reference(seen, &tree.reference) {
        Err(e) => {
            return Err(e);
        },
        Ok(()) => {},
    }
    let ghost middle = viewed(seen@);
    proof {
        lemma_collect(start, own);
    }
    match &tree.node {
        PageMapNode::Leaf { entries } => {
            let mut i: usize = 0;
            while i < entries.len()
                invariant
                    i <= entries@.len(),
                    rest == packs_listed(entries@),
                    distinct_uris(middle),
                    collect(middle, rest.take(i as int)) == Some(viewed(seen@)),
                    distinct_uris(viewed(seen@)),
                    collect(start, own) == Some(middle),
                    collect(start, own + rest) == collect(middle, rest),
                    start == viewed(old(seen)@),
                    tree_refs(tree) == own + rest,
                decreases entries@.len() - i,
            {
                proof {
                    assert(rest.take(i + 1).drop_last() =~= rest.take(i as int));
                    assert(rest.take(i + 1).last() == entries@[i as int].pack@);
                    assert(rest =~= rest.take(i + 1) + rest.skip(i + 1));
                    lemma_collect_join(middle, rest.take(i + 1), rest.skip(i + 1));
                }
                match add_reference(seen, &entries[i].pack) {
                    Err(e) => {
                        return Err(e);
                    },
                    Ok(()) => {},
                }
                proof {
                    lemma_collect(middle, rest.take(i + 1));
                }
                i = i + 1;
            }
            assert(rest.take(i as int) =~= rest);
            Ok(())
        },
        PageMapNode::Internal { .. } => {
            let mut i: usize = 0;
            proof {
                assert(tree.children@.take(0) =~= Seq::<Arc<Tree>>::empty());
            }
            while i < tree.children.len()
                invariant
                    i <= tree.children@.len(),
                    rest == forest_refs(tree.children@),
                    distinct_uris(middle),
                    collect(middle, forest_refs(tree.children@.take(i as int))) == Some(
                        viewed(seen@),
                    ),
                    distinct_uris(viewed(seen@)),
                    collect(start, own) == Some(middle),
                    collect(start, own + rest) == collect(middle, rest),
                    start == viewed(old(seen)@),
                    tree_refs(tree) == own + rest,
                decreases tree.children@.len() - i,
            {
                let ghost child_refs = tree_refs(&*tree.children@[i as int]);
                proof {
                    let done = tree.children@.take(i as int);
                    let next = tree.children@.take(i + 1);
                    assert(next.drop_last() =~= done);
                    lemma_collect_join(middle, forest_refs(done), child_refs);
                    lemma_forest_refs_split(tree.children@, i + 1);
                    lemma_collect_join(
                        middle,
                        forest_refs(next),
                        forest_refs(tree.children@.skip(i + 1)),
                    );
                }
                match reachable(&tree.children[i], seen) {
                    Err(e) => {
                        return Err(e);
                    },
                    Ok(()) => {},
                }
                i = i + 1;
            }
            assert(tree.children@.take(i as int) =~= tree.children@);
            Ok(())
        },
    }
}

proof fn lemma_forest_refs_split(trees: Seq<Arc<Tree>>, k: int)
    requires
        0 <= k <= trees.len(),
    ensures
        forest_refs(trees) == forest_refs(trees.take(k)) + forest_refs(trees.skip(k)),
    decreases trees,
{
    if k == trees.len() {
        assert(trees.take(k) =~= trees);
        assert(trees.skip(k) =~= Seq::<Arc<Tree>>::empty());
        assert(forest_refs(trees.take(k)) + forest_refs(trees.skip(k)) =~= forest_refs(trees));
    } else {
        lemma_forest_refs_split(trees.drop_last(), k);
        assert(trees.drop_last().take(k) =~= trees.take(k));
        assert(trees.skip(k).drop_last() =~= trees.drop_last().skip(k));
        assert(trees.skip(k).last() == trees.last());
        assert(forest_refs(trees) =~= forest_refs(trees.take(k)) + forest_refs(trees.skip(k)));
    }
}

/// The total length of some objects.
pub open spec fn total_length(refs: Seq<ReferenceView>) -> nat
    decreases refs.len(),
{
    if refs.len() == 0 {
        0
    } else {
        total_length(refs.drop_last()) + refs.last().length as nat
    }
}

proof fn lemma_total_grows(refs: Seq<ReferenceView>, k: int)
    requires
        0 <= k <= refs.len(),
    ensures
        total_length(refs.take(k)) <= total_length(refs),
    decreases refs.len() - k,
{
    if k == refs.len() {
        assert(refs.take(k) =~= refs);
    } else {
        lemma_total_grows(refs, k + 1);
        assert(refs.take(k + 1).drop_last() =~= refs.take(k));
    }
}

fn reachable_total(refs: &Vec<PageObjectReference>) -> (r: Result<u64, RuntimeError>)
    ensures
        match r {
            Ok(total) => total == total_length(viewed(refs@)),
            Err(e) => {
                &&& total_length(viewed(refs@)) > u64::MAX
                &&& e@ == ErrorView::Corrupt("reachable bytes overflow"@)
            },
        },
{
    let ghost all = viewed(refs@);
    let mut total: u64 = 0;
    let mut i: usize = 0;
    while i < refs.len()
        invariant
            i <= refs@.len(),
            all == viewed(refs@),
            total == total_length(all.take(i as int)),
        decreases refs@.len() - i,
    {
        proof {
            assert(all.take(i + 1).drop_last() =~= all.take(i as int));
            lemma_total_grows(all, i + 1);
        }
        match total.checked_add(refs[i].length) {
            None => {
                return Err(corrupt("reachable bytes overflow"));
            },
            Some(next) => {
                total = next;
            },
        }
        i = i + 1;
    }
    assert(all.take(i as int) =~= all);
    Ok(total)
}

/// What covers a tree accounts for each object that it needs.
pub proof fn lemma_covered_refs(
    tree: Arc<Tree>,
    known: Set<ReferenceView>,
    new: Set<Seq<char>>,
)
    requires
        tree_covered(*tree, known, new),
    ensures
        forall|r: ReferenceView| #[trigger]
            tree_refs(&*tree).contains(r) ==> known.contains(r) || new.contains(r.uri),
    decreases tree,
{
    let refs = tree_refs(&*tree);
    match tree.node {
        PageMapNode::Leaf { entries } => {
            assert forall|r: ReferenceView| #[trigger] refs.contains(r) implies known.contains(r)
                || new.contains(r.uri) by {
                let k = choose|k: int| 0 <= k < refs.len() && refs[k] == r;
                if k > 0 {
                    assert(object_covered(entries@[k - 1].pack, known, new));
                }
            }
        },
        PageMapNode::Internal { .. } => {
            lemma_forest_covered_refs(tree.children@, known, new);
            let below = forest_refs(tree.children@);
            assert forall|r: ReferenceView| #[trigger] refs.contains(r) implies known.contains(r)
                || new.contains(r.uri) by {
                let k = choose|k: int| 0 <= k < refs.len() && refs[k] == r;
                if k > 0 {
                    assert(below[k - 1] == r);
                    assert(below.contains(r));
                }
            }
        },
    }
}

proof fn lemma_forest_covered_refs(
    trees: Seq<Arc<Tree>>,
    known: Set<ReferenceView>,
    new: Set<Seq<char>>,
)
    requires
        forest_covered(trees, known, new),
    ensures
        forall|r: ReferenceView| #[trigger]
            forest_refs(trees).contains(r) ==> known.contains(r) || new.contains(r.uri),
    decreases trees,
{
    if trees.len() > 0 {
        lemma_forest_covered_refs(trees.drop_last(), known, new);
        lemma_covered_refs(trees.last(), known, new);
        let head = forest_refs(trees.drop_last());
        let tail = tree_refs(&*trees.last());
        assert forall|r: ReferenceView| #[trigger]
            forest_refs(trees).contains(r) implies known.contains(r) || new.contains(r.uri) by {
            let k = choose|k: int| 0 <= k < forest_refs(trees).len() && forest_refs(trees)[k] == r;
            if k < head.len() {
                assert(head[k] == r);
                assert(head.contains(r));
            } else {
                assert(tail[k - head.len()] == r);
                assert(tail.contains(r));
            }
        }
    }
}

/// The objects of a tree, taken as known, cover it.
proof fn lemma_own_refs_cover(tree: Arc<Tree>, known: Set<ReferenceView>, new: Set<Seq<char>>)
    requires
        forall|r: ReferenceView| #[trigger] tree_refs(&*tree).contains(r) ==> known.contains(r),
    ensures
        tree_covered(*tree, known, new),
    decreases tree,
{
    let refs = tree_refs(&*tree);
    assert(refs[0] == tree.reference@);
    assert(refs.contains(tree.reference@));
    match tree.node {
        PageMapNode::Leaf { entries } => {
            assert forall|i: int| 0 <= i < entries@.len() implies object_covered(
                (#[trigger] entries@[i]).pack,
                known,
                new,
            ) by {
                assert(refs[i + 1] == entries@[i].pack@);
                assert(refs.contains(entries@[i].pack@));
            }
        },
        PageMapNode::Internal { .. } => {
            let below = forest_refs(tree.children@);
            assert forall|r: ReferenceView| #[trigger] below.contains(r) implies known.contains(
                r,
            ) by {
                let k = choose|k: int| 0 <= k < below.len() && below[k] == r;
                assert(refs[k + 1] == r);
                assert(refs.contains(r));
            }
            lemma_own_forest_refs_cover(tree.children@, known, new);
        },
    }
}

proof fn lemma_own_forest_refs_cover(
    trees: Seq<Arc<Tree>>,
    known: Set<ReferenceView>,
    new: Set<Seq<char>>,
)
    requires
        forall|r: ReferenceView| #[trigger] forest_refs(trees).contains(r) ==> known.contains(r),
    ensures
        forest_covered(trees, known, new),
    decreases trees,
{
    if trees.len() > 0 {
        let head = forest_refs(trees.drop_last());
        let tail = tree_refs(&*trees.last());
        assert forall|r: ReferenceView| #[trigger] head.contains(r) implies known.contains(r) by {
            let k = choose|k: int| 0 <= k < head.len() && head[k] == r;
            assert(forest_refs(trees)[k] == r);
            assert(forest_refs(trees).contains(r));
        }
        assert forall|r: ReferenceView| #[trigger] tail.contains(r) implies known.contains(r) by {
            let k = choose|k: int| 0 <= k < tail.len() && tail[k] == r;
            assert(forest_refs(trees)[head.len() + k] == r);
            assert(forest_refs(trees).contains(r));
        }
        lemma_own_forest_refs_cover(trees.drop_last(), known, new);
        lemma_own_refs_cover(trees.last(), known, new);
    }
}

// ------------------------------------------------------------- persistence

/// The roots that stand over the trees after `n` levels of new nodes: while there
/// are several, the next level groups them.
pub open spec fn stacked<C: PageMapCodec>(
    codec: &C,
    trees: Seq<Arc<Tree>>,
    roots: Seq<Arc<Tree>>,
    n: nat,
) -> bool
    decreases n,
{
    if n == 0 {
        roots == trees
    } else {
        exists|below: Seq<Arc<Tree>>|
            {
                &&& #[trigger] next_level(codec, below, roots)
                &&& stacked(codec, trees, below, (n - 1) as nat)
            }
    }
}

/// The nodes that group several roots, one level above them.
pub open spec fn next_level<C: PageMapCodec>(
    codec: &C,
    below: Seq<Arc<Tree>>,
    roots: Seq<Arc<Tree>>,
) -> bool {
    &&& below.len() > 1
    &&& below[0].level() < u32::MAX
    &&& grouped(codec, (below[0].level() + 1) as u32, below, roots)
}

/// The highest tree at or below this one that does not stand on a single subtree.
pub open spec fn lowest(tree: Tree) -> Tree
    decreases tree,
{
    if tree.children@.len() == 1 {
        lowest(*tree.children@[0])
    } else {
        tree
    }
}

/// The root of the trees: the one that stands over them when their levels are
/// grouped until one is left, or, where that stands on a single subtree, the first
/// below it that does not.
pub open spec fn rooted<C: PageMapCodec>(
    codec: &C,
    trees: Seq<Arc<Tree>>,
    root: Option<Arc<Tree>>,
) -> bool {
    match root {
        None => trees.len() == 0,
        Some(root) => exists|top: Seq<Arc<Tree>>, n: nat|
            {
                &&& #[trigger] stacked(codec, trees, top, n)
                &&& top.len() == 1
                &&& *root == lowest(*top[0])
            },
    }
}

/// Several roots of the highest level there is stand over the trees.
pub open spec fn too_high<C: PageMapCodec>(
    codec: &C,
    trees: Seq<Arc<Tree>>,
    e: RuntimeError,
) -> bool {
    &&& e@ == ErrorView::Corrupt("page-map height overflow"@)
    &&& exists|roots: Seq<Arc<Tree>>, n: nat|
        {
            &&& #[trigger] stacked(codec, trees, roots, n)
            &&& roots.len() > 1
            &&& roots[0].level() == u32::MAX
        }
}

/// The codec refused a node of a level that groups the roots over the trees.
pub open spec fn grow_error<C: PageMapCodec>(
    codec: &C,
    trees: Seq<Arc<Tree>>,
    e: RuntimeError,
) -> bool {
    exists|roots: Seq<Arc<Tree>>, n: nat|
        {
            &&& #[trigger] stacked(codec, trees, roots, n)
            &&& roots.len() > 1
            &&& roots[0].level() < u32::MAX
            &&& group_error(codec, (roots[0].level() + 1) as u32, roots, e)
        }
}

proof fn lemma_stacked_more<C: PageMapCodec>(
    codec: &C,
    trees: Seq<Arc<Tree>>,
    below: Seq<Arc<Tree>>,
    roots: Seq<Arc<Tree>>,
    n: nat,
)
    requires
        stacked(codec, trees, below, n),
        next_level(codec, below, roots),
    ensures
        stacked(codec, trees, roots, n + 1),
{
    assert(((n + 1) - 1) as nat == n);
}

/// Brings consecutive trees under one root, as low as it can be.
pub fn grow<C: PageMapCodec>(codec: &C, trees: Vec<Arc<Tree>>, artifacts: &mut Artifacts) -> (r:
    Result<Option<Arc<Tree>>, RuntimeError>)
    requires
        old(artifacts).wf(),
        trees@.len() > 0 ==> forest_wf(trees@, trees@[0].level()),
    ensures
        final(artifacts).wf(),
        old(artifacts)@.dom().subset_of(final(artifacts)@.dom()),
        match r {
            Ok(None) => trees@.len() == 0 && final(artifacts)@ == old(artifacts)@,
            Ok(Some(root)) => {
                &&& trees@.len() > 0
                &&& rooted(codec, trees@, Some(root))
                &&& root.wf()
                &&& root.entries() == entries_of(trees@)
                &&& root.children@.len() != 1
                &&& forall|known: Set<ReferenceView>| #[trigger]
                    forest_covered(trees@, known, old(artifacts)@.dom()) ==> tree_covered(
                        *root,
                        known,
                        final(artifacts)@.dom(),
                    )
                &&& authentic(old(artifacts)@) ==> authentic(final(artifacts)@)
            },
            Err(e) => grow_error(codec, trees@, e) || too_high(codec, trees@, e),
        },
{
    if trees.len() == 0 {
        return Ok(None);
    }
    let ghost start = trees@;
    let ghost old_keys = artifacts@.dom();
    proof {
        lemma_forest_ordered(start, start[0].level());
    }
    let mut roots = trees;
    let ghost mut levels: nat = 0;
    while roots.len() > 1
        invariant
            artifacts.wf(),
            stacked(codec, start, roots@, levels),
            old_keys == old(artifacts)@.dom(),
            old_keys.subset_of(artifacts@.dom()),
            start == trees@,
            authentic(old(artifacts)@) ==> authentic(artifacts@),
            roots@.len() > 0,
            forest_wf(roots@, roots@[0].level()),
            entries_of(roots@) == entries_of(start),
            entries_of(start).len() > 0,
            forall|known: Set<ReferenceView>| #[trigger]
                forest_covered(start, known, old_keys) ==> forest_covered(
                    roots@,
                    known,
                    artifacts@.dom(),
                ),
        decreases u32::MAX - roots@[0].level(),
    {
        let level: u32 = roots[0].node.level();
        if level == u32::MAX {
            assert(stacked(codec, start, roots@, levels));
            return Err(corrupt("page-map height overflow"));
        }
        let ghost before = roots@;
        let ghost keys = artifacts@.dom();
        roots =
        match internal_nodes(codec, roots, level + 1, artifacts) {
            Err(e) => {
                assert(stacked(codec, start, before, levels));
                return Err(e);
            },
            Ok(next) => next,
        };
        proof {
            lemma_forest_ordered(roots@, (level + 1) as u32);
            lemma_forest_member(roots@, (level + 1) as u32, 0);
            lemma_stacked_more(codec, start, before, roots@, levels);
            levels = levels + 1;
            assert forall|known: Set<ReferenceView>| #[trigger]
                forest_covered(start, known, old_keys) implies forest_covered(
                roots@,
                known,
                artifacts@.dom(),
            ) by {
                assert(forest_covered(before, known, keys));
            }
        }
    }
    let mut root = share(&roots[0]);
    let ghost top = roots@;
    proof {
        lemma_forest_member(roots@, roots@[0].level(), 0);
        assert(roots@ =~= seq![root]);
        lemma_one_forest(root);
        assert forall|known: Set<ReferenceView>| #[trigger]
            forest_covered(start, known, old_keys) implies tree_covered(
            *root,
            known,
            artifacts@.dom(),
        ) by {
            lemma_covered_member(roots@, known, artifacts@.dom(), 0);
        }
    }
    while root.children.len() == 1
        invariant
            artifacts.wf(),
            old_keys == old(artifacts)@.dom(),
            old_keys.subset_of(artifacts@.dom()),
            authentic(old(artifacts)@) ==> authentic(artifacts@),
            root.wf(),
            lowest(*root) == lowest(*top[0]),
            root.entries() == entries_of(start),
            forall|known: Set<ReferenceView>| #[trigger]
                forest_covered(start, known, old_keys) ==> tree_covered(
                    *root,
                    known,
                    artifacts@.dom(),
                ),
        decreases root.level(),
    {
        let child = share(&root.children[0]);
        proof {
            let below = (root.level() - 1) as u32;
            lemma_forest_member(root.children@, below, 0);
            assert(root.children@ =~= seq![child]);
            lemma_one_forest(child);
            assert forall|known: Set<ReferenceView>| #[trigger]
                forest_covered(start, known, old_keys) implies tree_covered(
                *child,
                known,
                artifacts@.dom(),
            ) by {
                assert(tree_covered(*root, known, artifacts@.dom()));
                lemma_covered_member(root.children@, known, artifacts@.dom(), 0);
            }
        }
        root = child;
    }
    assert(stacked(codec, start, top, levels));
    Ok(Some(root))
}

/// One page of a pack, as the pack's own index describes it.
#[derive(Clone, Copy, Debug)]
pub struct PackEntry {
    pub page_number: u64,
    pub offset: u64,
    pub stored_length: u32,
    pub raw_length: u32,
    pub codec: PageCodec,
    pub page_sha256: Sha256,
}

/// A page of a candidate image that differs from the parent.
#[derive(Debug)]
pub struct ChangedPage {
    pub number: u64,
    pub bytes: Vec<u8>,
}

/// The byte format of page packs.
pub trait PagePackCodec {
    /// Packs pages, and gives the pack with its index.
    fn pack(&self, page_size: u32, pages: &[ChangedPage]) -> Result<
        (Vec<u8>, Vec<PackEntry>),
        RuntimeError,
    >;
}

pub open spec fn pack_prefix() -> Seq<char> {
    "_otmp/page-packs/"@
}

pub open spec fn pack_suffix() -> Seq<char> {
    ".otmppg"@
}

/// Pages per pack: as many as fill a mebibyte, each with 64 bytes of index,
/// after a header of 64 bytes.
pub const PACK_PAGES: usize = 252;

pub open spec fn pages_sorted(pages: Seq<ChangedPage>) -> bool {
    forall|i: int, j: int|
        #![trigger pages[i], pages[j]]
        0 <= i < j < pages.len() ==> pages[i].number < pages[j].number
}

/// Each entry maps the page at its place, by its number and the digest of its
/// bytes.
pub open spec fn maps_in_order(entries: Seq<PageMapEntry>, pages: Seq<ChangedPage>) -> bool {
    &&& entries.len() == pages.len()
    &&& forall|i: int|
        0 <= i < pages.len() ==> (#[trigger] entries[i]).page_number == pages[i].number
            && entries[i].page_sha256@ == sha256_of(pages[i].bytes@)
}

/// Whether the entry says what the pack's index says.
pub open spec fn from_index(entry: PageMapEntry, indexed: PackEntry) -> bool {
    &&& entry.page_number == indexed.page_number
    &&& entry.offset == indexed.offset
    &&& entry.stored_length == indexed.stored_length
    &&& entry.raw_length == indexed.raw_length
    &&& entry.codec == indexed.codec
    &&& entry.page_sha256 == indexed.page_sha256
}

/// Whether an index lists the packed pages, in their order, each with its digest.
pub open spec fn index_agrees(index: Seq<PackEntry>, pages: Seq<ChangedPage>) -> bool {
    &&& index.len() == pages.len()
    &&& forall|i: int|
        0 <= i < index.len() ==> (#[trigger] index[i]).page_number == pages[i].number
            && index[i].page_sha256@ == sha256_of(pages[i].bytes@)
}

/// Where the run that starts at `at` ends: behind as many pages as a pack takes,
/// or behind the last.
pub open spec fn run_end(pages: Seq<ChangedPage>, at: int) -> int {
    if pages.len() - at < PACK_PAGES {
        pages.len() as int
    } else {
        at + PACK_PAGES
    }
}

/// The pages are divided into runs, each of them one pack. This is the run that
/// starts at `at`.
pub open spec fn run_at(run: Seq<ChangedPage>, pages: Seq<ChangedPage>, at: int) -> bool {
    &&& 0 <= at < pages.len()
    &&& at % PACK_PAGES as int == 0
    &&& run == pages.subrange(at, run_end(pages, at))
}

/// Whether all the pages are within the image.
pub open spec fn within(pages: Seq<ChangedPage>, eof: u64) -> bool {
    forall|i: int| 0 <= i < pages.len() ==> (#[trigger] pages[i]).number <= eof
}

/// The format refused a run, or gave a pack whose index does not list its pages.
pub open spec fn run_refused<C: PagePackCodec>(
    codec: &C,
    run: &[ChangedPage],
    e: RuntimeError,
) -> bool {
    ||| call_ensures(
        C::pack,
        (codec, 4096u32, run),
        Err::<(Vec<u8>, Vec<PackEntry>), RuntimeError>(e),
    )
    ||| {
        &&& e@ == ErrorView::Corrupt("pack index disagrees with the packed pages"@)
        &&& exists|bytes: Vec<u8>, index: Vec<PackEntry>|
            {
                &&& #[trigger] call_ensures(
                    C::pack,
                    (codec, 4096u32, run),
                    Ok::<(Vec<u8>, Vec<PackEntry>), RuntimeError>((bytes, index)),
                )
                &&& !index_agrees(index@, run@)
            }
    }
}

/// Why a run is not packed: a page behind the end, else what the format did.
pub open spec fn run_error<C: PagePackCodec>(
    codec: &C,
    run: &[ChangedPage],
    eof: u64,
    e: RuntimeError,
) -> bool {
    if within(run@, eof) {
        run_refused(codec, run, e)
    } else {
        e@ == ErrorView::Corrupt("candidate changed page beyond EOF"@)
    }
}

/// The first run that is not packed, and why: the runs before it were.
pub open spec fn pack_error<C: PagePackCodec>(
    codec: &C,
    pages: Seq<ChangedPage>,
    eof: u64,
    e: RuntimeError,
) -> bool {
    exists|run: &[ChangedPage], at: int, entries: Seq<PageMapEntry>|
        {
            &&& #[trigger] run_at(run@, pages, at)
            &&& within(pages.take(at), eof)
            &&& #[trigger] all_packed(codec, entries, pages, at)
            &&& run_error(codec, run, eof, e)
        }
}

/// The first `n` pages are packed, and the entries say where.
pub open spec fn all_packed<C: PagePackCodec>(
    codec: &C,
    entries: Seq<PageMapEntry>,
    pages: Seq<ChangedPage>,
    n: int,
) -> bool {
    &&& entries.len() == n
    &&& forall|i: int| 0 <= i < n ==> packed(codec, #[trigger] entries[i], pages, i)
}

/// Every page is within the image, and mapped to its place in the pack of its run.
pub open spec fn mapped<C: PagePackCodec>(
    codec: &C,
    changes: Seq<PageMapEntry>,
    pages: Seq<ChangedPage>,
    eof: u64,
) -> bool {
    &&& within(pages, eof)
    &&& maps_in_order(changes, pages)
    &&& all_packed(codec, changes, pages, pages.len() as int)
}

/// The entry is what the format's index says of page `i` in the pack of its run,
/// and names that pack.
pub open spec fn packed<C: PagePackCodec>(
    codec: &C,
    entry: PageMapEntry,
    pages: Seq<ChangedPage>,
    i: int,
) -> bool {
    exists|run: &[ChangedPage], at: int, bytes: Vec<u8>, index: Vec<PackEntry>|
        {
            &&& #[trigger] call_ensures(
                C::pack,
                (codec, 4096u32, run),
                Ok::<(Vec<u8>, Vec<PackEntry>), RuntimeError>((bytes, index)),
            )
            &&& #[trigger] run_at(run@, pages, at)
            &&& at <= i < at + run@.len()
            &&& index_agrees(index@, run@)
            &&& from_index(entry, index@[i - at])
            &&& refers_to(entry.pack@, pack_prefix(), pack_suffix(), bytes@)
        }
}

/// Packs one run of pages and maps each of them to the pack.
pub fn pack_run<C: PagePackCodec>(
    codec: &C,
    pages: &[ChangedPage],
    eof: u64,
    artifacts: &mut Artifacts,
) -> (r: Result<Vec<PageMapEntry>, RuntimeError>)
    requires
        old(artifacts).wf(),
    ensures
        final(artifacts).wf(),
        old(artifacts)@.dom().subset_of(final(artifacts)@.dom()),
        match r {
            Ok(entries) => {
                &&& within(pages@, eof)
                &&& maps_in_order(entries@, pages@)
                &&& exists|bytes: Vec<u8>, index: Vec<PackEntry>|
                    {
                        &&& #[trigger] call_ensures(
                            C::pack,
                            (codec, 4096u32, pages),
                            Ok::<(Vec<u8>, Vec<PackEntry>), RuntimeError>((bytes, index)),
                        )
                        &&& index_agrees(index@, pages@)
                        &&& forall|i: int|
                            0 <= i < entries@.len() ==> {
                                &&& from_index(#[trigger] entries@[i], index@[i])
                                &&& refers_to(
                                    entries@[i].pack@,
                                    pack_prefix(),
                                    pack_suffix(),
                                    bytes@,
                                )
                                &&& final(artifacts)@.contains_key(entries@[i].pack.uri@)
                                &&& final(artifacts)@[entries@[i].pack.uri@] == bytes@
                            }
                    }
                &&& authentic(old(artifacts)@) ==> authentic(final(artifacts)@)
            },
            Err(e) => run_error(codec, pages, eof, e),
        },
{
    let mut i: usize = 0;
    while i < pages.len()
        invariant
            i <= pages@.len(),
            artifacts.wf(),
            *artifacts == *old(artifacts),
            forall|k: int| 0 <= k < i ==> (#[trigger] pages@[k]).number <= eof,
        decreases pages@.len() - i,
    {
        if pages[i].number > eof {
            assert(!within(pages@, eof));
            return Err(corrupt("candidate changed page beyond EOF"));
        }
        i = i + 1;
    }
    assert(within(pages@, eof));
    let (bytes, index) = match codec.pack(4096, pages) {
        Err(e) => {
            return Err(e);
        },
        Ok(packed) => packed,
    };
    assert(call_ensures(
        C::pack,
        (codec, 4096u32, pages),
        Ok::<(Vec<u8>, Vec<PackEntry>), RuntimeError>((bytes, index)),
    ));
    if index.len() != pages.len() {
        assert(!index_agrees(index@, pages@));
        return Err(corrupt("pack index disagrees with the packed pages"));
    }
    let pack = content_reference("_otmp/page-packs/", ".otmppg", bytes.as_slice());
    let ghost packed = bytes;
    let mut entries: Vec<PageMapEntry> = Vec::new();
    let mut k: usize = 0;
    while k < index.len()
        invariant
            k <= index@.len(),
            artifacts.wf(),
            *artifacts == *old(artifacts),
            within(pages@, eof),
            index@.len() == pages@.len(),
            call_ensures(
                C::pack,
                (codec, 4096u32, pages),
                Ok::<(Vec<u8>, Vec<PackEntry>), RuntimeError>((packed, index)),
            ),
            entries@.len() == k,
            forall|i: int|
                0 <= i < k ==> {
                    &&& from_index(#[trigger] entries@[i], index@[i])
                    &&& entries@[i].pack == pack
                    &&& entries@[i].page_number == pages@[i].number
                    &&& entries@[i].page_sha256@ == sha256_of(pages@[i].bytes@)
                },
        decreases index@.len() - k,
    {
        if index[k].page_number != pages[k].number || !index[k].page_sha256.matches(
            pages[k].bytes.as_slice(),
        ) {
            assert(!index_agrees(index@, pages@));
            return Err(corrupt("pack index disagrees with the packed pages"));
        }
        entries.push(
            PageMapEntry {
                page_number: index[k].page_number,
                pack: pack.clone(),
                offset: index[k].offset,
                stored_length: index[k].stored_length,
                raw_length: index[k].raw_length,
                codec: index[k].codec,
                page_sha256: index[k].page_sha256,
            },
        );
        k = k + 1;
    }
    assert(index_agrees(index@, pages@)) by {
        assert forall|i: int| 0 <= i < index@.len() implies (#[trigger] index@[i]).page_number
            == pages@[i].number && index@[i].page_sha256@ == sha256_of(pages@[i].bytes@) by {
            assert(from_index(entries@[i], index@[i]));
        }
    }
    artifacts.insert(Artifact { uri: pack.uri.clone(), bytes });
    Ok(entries)
}

/// Packs all changed pages, a bounded number to a pack.
pub fn pack_pages<C: PagePackCodec>(
    codec: &C,
    pages: &[ChangedPage],
    eof: u64,
    artifacts: &mut Artifacts,
) -> (r: Result<Vec<PageMapEntry>, RuntimeError>)
    requires
        old(artifacts).wf(),
        pages_sorted(pages@),
    ensures
        final(artifacts).wf(),
        old(artifacts)@.dom().subset_of(final(artifacts)@.dom()),
        match r {
            Ok(entries) => {
                &&& mapped(codec, entries@, pages@, eof)
                &&& sorted(entries@)
                &&& entries_covered(entries@, Set::empty(), final(artifacts)@.dom())
                &&& authentic(old(artifacts)@) ==> authentic(final(artifacts)@)
            },
            Err(e) => pack_error(codec, pages@, eof, e),
        },
{
    let mut entries: Vec<PageMapEntry> = Vec::new();
    let mut at: usize = 0;
    while at < pages.len()
        invariant
            at <= pages@.len(),
            at < pages@.len() ==> at % PACK_PAGES == 0,
            artifacts.wf(),
            old(artifacts)@.dom().subset_of(artifacts@.dom()),
            maps_in_order(entries@, pages@.take(at as int)),
            forall|i: int| 0 <= i < at ==> (#[trigger] pages@[i]).number <= eof,
            authentic(old(artifacts)@) ==> authentic(artifacts@),
            forall|i: int| 0 <= i < at ==> packed(codec, #[trigger] entries@[i], pages@, i),
            entries_covered(entries@, Set::empty(), artifacts@.dom()),
        decreases pages@.len() - at,
    {
        let end: usize = if pages.len() - at < PACK_PAGES {
            pages.len()
        } else {
            at + PACK_PAGES
        };
        let run = &pages[at..end];
        let ghost before = entries@;
        let ghost keys = artifacts@.dom();
        assert forall|i: int| 0 <= i < run@.len() implies #[trigger] run@[i] == pages@[at + i] by {}
        proof {
            assert(run@ =~= pages@.subrange(at as int, end as int));
            assert(run_at(run@, pages@, at as int));
        }
        let mut more = match pack_run(codec, run, eof, artifacts) {
            Err(e) => {
                proof {
                    assert(within(pages@.take(at as int), eof));
                    assert(run_at(run@, pages@, at as int));
                    assert(all_packed(codec, entries@, pages@, at as int));
                }
                return Err(e);
            },
            Ok(more) => more,
        };
        let ghost fresh = more@;
        entries.append(&mut more);
        proof {
            assert(entries@ =~= before + fresh);
            assert forall|i: int| 0 <= i < end implies (#[trigger] pages@[i]).number <= eof by {
                if i >= at {
                    assert(run@[i - at] == pages@[i]);
                }
            }
            assert forall|i: int| 0 <= i < end implies packed(
                codec,
                #[trigger] entries@[i],
                pages@,
                i,
            ) by {
                if i < at {
                    assert(entries@[i] == before[i]);
                } else {
                    assert(entries@[i] == fresh[i - at]);
                    let (bytes, index) = choose|bytes: Vec<u8>, index: Vec<PackEntry>|
                        {
                            &&& #[trigger] call_ensures(
                                C::pack,
                                (codec, 4096u32, run),
                                Ok::<(Vec<u8>, Vec<PackEntry>), RuntimeError>((bytes, index)),
                            )
                            &&& index_agrees(index@, run@)
                            &&& forall|i: int|
                                0 <= i < fresh.len() ==> {
                                    &&& from_index(#[trigger] fresh[i], index@[i])
                                    &&& refers_to(
                                        fresh[i].pack@,
                                        pack_prefix(),
                                        pack_suffix(),
                                        bytes@,
                                    )
                                    &&& artifacts@.contains_key(fresh[i].pack.uri@)
                                    &&& artifacts@[fresh[i].pack.uri@] == bytes@
                                }
                        };
                    assert(call_ensures(
                        C::pack,
                        (codec, 4096u32, run),
                        Ok::<(Vec<u8>, Vec<PackEntry>), RuntimeError>((bytes, index)),
                    ));
                    assert(run_at(run@, pages@, at as int));
                    assert(from_index(fresh[i - at], index@[i - at]));
                }
            }
            assert forall|i: int| 0 <= i < end implies (#[trigger] entries@[i]).page_number
                == pages@.take(end as int)[i].number && entries@[i].page_sha256@ == sha256_of(
                pages@.take(end as int)[i].bytes@,
            ) by {
                if i < at {
                    assert(entries@[i] == before[i]);
                    assert(before[i].page_number == pages@.take(at as int)[i].number);
                } else {
                    assert(entries@[i] == fresh[i - at]);
                    assert(run@[i - at] == pages@[i]);
                }
            }
            assert forall|i: int| 0 <= i < entries@.len() implies object_covered(
                (#[trigger] entries@[i]).pack,
                Set::empty(),
                artifacts@.dom(),
            ) by {
                if i < at {
                    assert(entries@[i] == before[i]);
                    assert(object_covered(before[i].pack, Set::empty(), keys));
                } else {
                    assert(entries@[i] == fresh[i - at]);
                }
            }
        }
        at = end;
    }
    proof {
        assert(pages@.take(at as int) =~= pages@);
        assert(within(pages@, eof));
        assert forall|i: int, j: int|
            #![trigger entries@[i], entries@[j]]
            0 <= i < j < entries@.len() implies entries@[i].page_number
            < entries@[j].page_number by {
            assert(pages@[i].number < pages@[j].number);
        }
    }
    Ok(entries)
}

/// What publishing a changed image takes.
#[derive(Debug)]
pub struct IncrementalImage {
    /// The page map, if any page is mapped.
    pub tree: Option<Arc<Tree>>,
    /// How a generation names the page map.
    pub root: Option<PageMapRoot>,
    /// The objects that the page map needs and that are new.
    pub artifacts: Vec<Artifact>,
    /// The total length of all objects that the page map needs.
    pub reachable_bytes: u64,
}

/// The entries that the parent map leaves in place or the changes replace.
pub open spec fn former_entries(parent: Option<&Arc<Tree>>) -> Seq<PageMapEntry> {
    match parent {
        Some(tree) => tree.entries(),
        None => Seq::empty(),
    }
}

pub open spec fn former_refs(parent: Option<&Arc<Tree>>) -> Seq<ReferenceView> {
    match parent {
        Some(tree) => tree_refs(&**tree),
        None => Seq::empty(),
    }
}

pub open spec fn image_refs(tree: Option<Arc<Tree>>) -> Seq<ReferenceView> {
    match tree {
        Some(tree) => tree_refs(&*tree),
        None => Seq::empty(),
    }
}

pub open spec fn names_root(root: Option<PageMapRoot>, tree: Option<Arc<Tree>>) -> bool {
    match (root, tree) {
        (Some(root), Some(tree)) => {
            &&& root.uri == tree.reference.uri
            &&& root.sha256 == tree.reference.sha256
            &&& root.length == tree.reference.length
            &&& root.height == tree.level()
        },
        (None, None) => true,
        _ => false,
    }
}

/// Whether one of the objects has this address.
pub open spec fn publishes(artifacts: Seq<Artifact>, uri: Seq<char>) -> bool {
    exists|k: int| 0 <= k < artifacts.len() && (#[trigger] artifacts[k]).uri@ == uri
}

impl IncrementalImage {
    /// The new map holds exactly the pages it should; it needs only objects
    /// that the parent map already needed or that are published with it, each
    /// under the digest of its bytes; the packs of the changes are among these;
    /// and nothing else is published.
    pub open spec fn wf(
        &self,
        parent: Option<&Arc<Tree>>,
        changes: Seq<PageMapEntry>,
        eof: u64,
    ) -> bool {
        let refs = image_refs(self.tree);
        &&& is_merge(
            match self.tree {
                Some(tree) => tree.entries(),
                None => Seq::empty(),
            },
            former_entries(parent),
            changes,
            eof,
        )
        &&& self.tree matches Some(tree) ==> tree.wf() && tree.children@.len() != 1
        &&& names_root(self.root, self.tree)
        &&& collect(Seq::empty(), refs) is Some
        &&& self.reachable_bytes == total_length(collect(Seq::empty(), refs)->0)
        &&& forall|r: ReferenceView| #[trigger]
            refs.contains(r) ==> former_refs(parent).contains(r) || exists|i: int|
                0 <= i < self.artifacts@.len() && (#[trigger] self.artifacts@[i]).uri@ == r.uri
        &&& forall|i: int|
            0 <= i < self.artifacts@.len() ==> has_uri(refs, (#[trigger] self.artifacts@[i]).uri@)
                && own_address(self.artifacts@[i].uri@, self.artifacts@[i].bytes@)
        &&& forall|i: int|
            0 <= i < changes.len() ==> publishes(
                self.artifacts@,
                (#[trigger] changes[i]).pack.uri@,
            )
    }
}

fn uri_listed(refs: &Vec<PageObjectReference>, uri: &String) -> (found: bool)
    ensures
        found == has_uri(viewed(refs@), uri@),
{
    let ghost all = viewed(refs@);
    let mut i: usize = 0;
    while i < refs.len()
        invariant
            i <= refs@.len(),
            all == viewed(refs@),
            forall|k: int| 0 <= k < i ==> (#[trigger] all[k]).uri != uri@,
        decreases refs@.len() - i,
    {
        if refs[i].uri == *uri {
            assert(all[i as int].uri == uri@);
            return true;
        }
        i = i + 1;
    }
    false
}

/// The trees of the pages that the changes leave: what follows from the parent's,
/// or, without one, the leaves of the changes alone.
pub open spec fn changed_trees<C: PageMapCodec>(
    codec: &C,
    parent: Option<&Arc<Tree>>,
    changes: Seq<PageMapEntry>,
    eof: u64,
    trees: Seq<Arc<Tree>>,
) -> bool {
    &&& is_merge(entries_of(trees), former_entries(parent), changes, eof)
    &&& match parent {
        Some(tree) => updated(codec, **tree, changes, eof, trees),
        None => divided(codec, changes, trees),
    }
}

/// The image that follows from a parent's by the changed pages: each of them is
/// mapped by its digest to its place in the pack of its run, and the map follows
/// from the parent's by these mappings.
pub open spec fn persisted<C: PageMapCodec + PagePackCodec>(
    codec: &C,
    image: IncrementalImage,
    parent: Option<&Arc<Tree>>,
    pages: Seq<ChangedPage>,
    eof: u64,
) -> bool {
    exists|changes: Seq<PageMapEntry>, trees: Seq<Arc<Tree>>|
        {
            &&& #[trigger] mapped(codec, changes, pages, eof)
            &&& #[trigger] changed_trees(codec, parent, changes, eof, trees)
            &&& rooted(codec, trees, image.tree)
            &&& image.wf(parent, changes, eof)
        }
}

/// The map of the changed image was refused: the codec refused a node of the
/// changed trees; or, over these, a node of a level above them, or there is no
/// level left for one root; or the objects of the map cannot be counted, since two
/// of them claim one address or their lengths do not fit.
pub open spec fn map_error<C: PageMapCodec + PagePackCodec>(
    codec: &C,
    parent: Option<&Arc<Tree>>,
    pages: Seq<ChangedPage>,
    eof: u64,
    e: RuntimeError,
) -> bool {
    exists|changes: Seq<PageMapEntry>|
        {
            &&& #[trigger] mapped(codec, changes, pages, eof)
            &&& {
                ||| match parent {
                    Some(tree) => update_error(codec, **tree, changes, eof, e),
                    None => leaf_error(codec, changes, e),
                }
                ||| exists|trees: Seq<Arc<Tree>>|
                    {
                        &&& #[trigger] changed_trees(codec, parent, changes, eof, trees)
                        &&& grow_error(codec, trees, e) || too_high(codec, trees, e)
                            || uncountable(codec, trees, e)
                    }
            }
        }
}

/// The map over the trees has objects that cannot be counted.
pub open spec fn uncountable<C: PageMapCodec>(
    codec: &C,
    trees: Seq<Arc<Tree>>,
    e: RuntimeError,
) -> bool {
    exists|root: Arc<Tree>|
        {
            &&& #[trigger] rooted(codec, trees, Some(root))
            &&& match collect(Seq::empty(), tree_refs(&*root)) {
                None => e@ == ErrorView::Corrupt("conflicting reachable object references"@),
                Some(refs) => total_length(refs) > u64::MAX && e@ == ErrorView::Corrupt(
                    "reachable bytes overflow"@,
                ),
            }
        }
}

/// Why changed pages cannot be written. A page behind the end is always one of the
/// reasons: it keeps its run from being packed, and so every run after it.
pub open spec fn persist_error<C: PageMapCodec + PagePackCodec>(
    codec: &C,
    parent: Option<&Arc<Tree>>,
    pages: Seq<ChangedPage>,
    eof: u64,
    e: RuntimeError,
) -> bool {
    ||| pack_error(codec, pages, eof, e)
    ||| map_error(codec, parent, pages, eof, e)
}

/// Writes the changed pages of an image, and the page map that follows from
/// the parent's.
pub fn persist<C: PageMapCodec + PagePackCodec>(
    codec: &C,
    parent: Option<&Arc<Tree>>,
    pages: &[ChangedPage],
    eof: u64,
) -> (r: Result<IncrementalImage, RuntimeError>)
    requires
        parent matches Some(tree) ==> tree.wf(),
        pages_sorted(pages@),
    ensures
        match r {
            Ok(image) => persisted(codec, image, parent, pages@, eof),
            Err(e) => persist_error(codec, parent, pages@, eof, e),
        },
{
    let mut artifacts = Artifacts::new();
    let mappings = match pack_pages(codec, pages, eof, &mut artifacts) {
        Err(e) => {
            return Err(e);
        },
        Ok(mappings) => mappings,
    };
    let ghost changes = mappings@;
    let ghost packed_keys = artifacts@.dom();
    assert(mapped(codec, changes, pages@, eof));
    let ghost known = former_refs(parent).to_set();
    let trees = match parent {
        Some(tree) => {
            match update(codec, tree, mappings.as_slice(), eof, &mut artifacts) {
                Err(e) => {
                    return Err(e);
                },
                Ok(trees) => {
                    proof {
                        lemma_own_refs_cover(*tree, known, packed_keys);
                        assert(entries_covered(changes, known, packed_keys));
                        assert(forest_covered(trees@, known, artifacts@.dom()));
                        if trees@.len() > 0 {
                            lemma_forest_member(trees@, tree.level(), 0);
                        }
                    }
                    trees
                },
            }
        },
        None => {
            match leaf_nodes(codec, mappings, &mut artifacts) {
                Err(e) => {
                    return Err(e);
                },
                Ok(trees) => {
                    proof {
                        let new = artifacts@.dom();
                        assert(accounted(packs_of(changes), known, new)) by {
                            assert forall|r: ReferenceView| #[trigger]
                                packs_of(changes).contains(r) implies known.contains(r)
                                || new.contains(r.uri) by {
                                let i = choose|i: int|
                                    0 <= i < changes.len() && changes[i].pack@ == r;
                                assert(object_covered(changes[i].pack, Set::empty(), packed_keys));
                            }
                        }
                        lemma_forest_covered_more(trees@, packs_of(changes), new, known, new);
                        if trees@.len() > 0 {
                            lemma_forest_member(trees@, 0, 0);
                        }
                        lemma_merge_only_changes(changes, eof);
                    }
                    trees
                },
            }
        },
    };
    let ghost forest = trees@;
    let ghost keys = artifacts@.dom();
    assert(changed_trees(codec, parent, changes, eof, forest));
    let tree = match grow(codec, trees, &mut artifacts) {
        Err(e) => {
            assert(map_error(codec, parent, pages@, eof, e));
            return Err(e);
        },
        Ok(tree) => tree,
    };
    let ghost refs = image_refs(tree);
    let mut references: Vec<PageObjectReference> = Vec::new();
    assert(viewed(references@) =~= Seq::<ReferenceView>::empty());
    let root = match &tree {
        None => None,
        Some(tree) => {
            match reachable(tree, &mut references) {
                Err(e) => {
                    proof {
                        assert(rooted(codec, forest, Some(*tree)));
                        assert(uncountable(codec, forest, e));
                        assert(map_error(codec, parent, pages@, eof, e));
                    }
                    return Err(e);
                },
                Ok(()) => {},
            }
            Some(
                PageMapRoot {
                    uri: tree.reference.uri.clone(),
                    sha256: tree.reference.sha256,
                    length: tree.reference.length,
                    height: tree.node.level(),
                },
            )
        },
    };
    proof {
        assert(collect(Seq::empty(), refs) == Some(viewed(references@)));
        lemma_collect(Seq::empty(), refs);
        assert forall|r: ReferenceView| #[trigger] refs.contains(r) implies former_refs(
            parent,
        ).contains(r) || artifacts@.dom().contains(r.uri) by {
            assert(forest_covered(forest, known, keys));
            match tree {
                Some(t) => {
                    lemma_covered_refs(t, known, artifacts@.dom());
                },
                None => {},
            }
        }
        artifacts.lemma_listed();
    }
    let reachable_bytes: u64 = match reachable_total(&references) {
        Err(e) => {
            proof {
                match tree {
                    Some(t) => {
                        assert(rooted(codec, forest, Some(t)));
                        assert(uncountable(codec, forest, e));
                        assert(map_error(codec, parent, pages@, eof, e));
                    },
                    None => {
                        assert(refs =~= Seq::<ReferenceView>::empty());
                        assert(viewed(references@) =~= Seq::<ReferenceView>::empty());
                    },
                }
            }
            return Err(e);
        },
        Ok(total) => total,
    };
    let ghost all_keys = artifacts@.dom();
    let ghost created = artifacts.listed();
    assert forall|uri: Seq<char>| #[trigger] all_keys.contains(uri) implies exists|i: int|
        0 <= i < created.len() && (#[trigger] created[i]).uri@ == uri by {
        assert(artifacts@.contains_key(uri));
    }
    assert forall|i: int| 0 <= i < created.len() implies own_address(
        (#[trigger] created[i]).uri@,
        created[i].bytes@,
    ) by {
        assert(authentic(artifacts@));
        assert(artifacts@.contains_key(created[i].uri@));
    }
    let mut rest = artifacts.into_vec();
    let mut needed: Vec<Artifact> = Vec::new();
    while rest.len() > 0
        invariant
            rest@.len() <= created.len(),
            rest@ == created.take(rest@.len() as int),
            forall|i: int|
                0 <= i < created.len() ==> own_address(
                    (#[trigger] created[i]).uri@,
                    created[i].bytes@,
                ),
            forall|i: int|
                0 <= i < needed@.len() ==> has_uri(
                    viewed(references@),
                    (#[trigger] needed@[i]).uri@,
                ) && own_address(needed@[i].uri@, needed@[i].bytes@),
            forall|k: int|
                rest@.len() <= k < created.len() && has_uri(
                    viewed(references@),
                    (#[trigger] created[k]).uri@,
                ) ==> exists|i: int|
                    0 <= i < needed@.len() && (#[trigger] needed@[i]).uri@ == created[k].uri@,
        decreases rest@.len(),
    {
        let ghost n = rest@.len();
        let ghost before = needed@;
        match rest.pop() {
            None => {},
            Some(artifact) => {
                assert(artifact == created[n - 1]);
                assert(rest@ =~= created.take(n - 1));
                if uri_listed(&references, &artifact.uri) {
                    needed.push(artifact);
                    proof {
                        assert(needed@[before.len() as int].uri@ == created[n - 1].uri@);
                        assert forall|k: int|
                            rest@.len() <= k < created.len() && has_uri(
                                viewed(references@),
                                (#[trigger] created[k]).uri@,
                            ) implies exists|i: int|
                            0 <= i < needed@.len() && (#[trigger] needed@[i]).uri@
                                == created[k].uri@ by {
                            if k >= n {
                                let i = choose|i: int|
                                    0 <= i < before.len() && (#[trigger] before[i]).uri@
                                        == created[k].uri@;
                                assert(needed@[i].uri@ == created[k].uri@);
                            }
                        }
                    }
                }
            },
        }
    }
    let image = IncrementalImage { tree, root, artifacts: needed, reachable_bytes };
    proof {
        let listed = viewed(references@);
        assert forall|uri: Seq<char>| has_uri(listed, uri) <==> has_uri(refs, uri) by {
            if has_uri(listed, uri) {
                let k = choose|k: int| 0 <= k < listed.len() && (#[trigger] listed[k]).uri == uri;
                assert(listed.contains(listed[k]));
                assert(refs.contains(listed[k]));
                let j = choose|j: int| 0 <= j < refs.len() && refs[j] == listed[k];
                assert(refs[j].uri == uri);
            }
            if has_uri(refs, uri) {
                let k = choose|k: int| 0 <= k < refs.len() && (#[trigger] refs[k]).uri == uri;
                assert(refs.contains(refs[k]));
                assert(listed.contains(refs[k]));
                let j = choose|j: int| 0 <= j < listed.len() && listed[j] == refs[k];
                assert(listed[j].uri == uri);
            }
        }
        assert forall|r: ReferenceView| #[trigger] refs.contains(r) implies former_refs(
            parent,
        ).contains(r) || exists|i: int|
            0 <= i < image.artifacts@.len() && (#[trigger] image.artifacts@[i]).uri@ == r.uri by {
            if !former_refs(parent).contains(r) {
                assert(all_keys.contains(r.uri));
                let k = choose|k: int|
                    0 <= k < created.len() && (#[trigger] created[k]).uri@ == r.uri;
                let j = choose|j: int| 0 <= j < refs.len() && refs[j] == r;
                assert(refs[j].uri == r.uri);
                assert(has_uri(refs, r.uri));
                assert(has_uri(listed, created[k].uri@));
                let i = choose|i: int|
                    0 <= i < needed@.len() && (#[trigger] needed@[i]).uri@ == created[k].uri@;
                assert(image.artifacts@[i].uri@ == r.uri);
            }
        }
        assert forall|i: int| 0 <= i < image.artifacts@.len() implies has_uri(
            refs,
            (#[trigger] image.artifacts@[i]).uri@,
        ) && own_address(image.artifacts@[i].uri@, image.artifacts@[i].bytes@) by {
            assert(has_uri(listed, needed@[i].uri@));
        }
        assert forall|i: int| 0 <= i < changes.len() implies publishes(
            image.artifacts@,
            (#[trigger] changes[i]).pack.uri@,
        ) by {
            let r = changes[i].pack@;
            let held = match tree {
                Some(t) => t.entries(),
                None => Seq::empty(),
            };
            assert(object_covered(changes[i].pack, Set::empty(), packed_keys));
            assert(all_keys.contains(r.uri));
            let k = choose|k: int| 0 <= k < created.len() && (#[trigger] created[k]).uri@ == r.uri;
            assert(changes.contains(changes[i]));
            assert(held.contains(changes[i]));
            lemma_pack_needed(tree->0, changes[i]);
            let j = choose|j: int| 0 <= j < refs.len() && refs[j] == r;
            assert(refs[j].uri == r.uri);
            assert(has_uri(listed, created[k].uri@));
            let n = choose|n: int|
                0 <= n < needed@.len() && (#[trigger] needed@[n]).uri@ == created[k].uri@;
            assert(image.artifacts@[n].uri@ == r.uri);
        }
        assert(image.wf(parent, changes, eof));
        assert(rooted(codec, forest, image.tree));
        assert(persisted(codec, image, parent, pages@, eof));
    }
    Ok(image)
}

/// A tree needs the packs of its entries.
proof fn lemma_pack_needed(tree: Arc<Tree>, entry: PageMapEntry)
    requires
        tree.entries().contains(entry),
    ensures
        tree_refs(&*tree).contains(entry.pack@),
    decreases tree,
{
    let refs = tree_refs(&*tree);
    let below = refs.skip(1);
    assert(refs =~= seq![tree.reference@] + below);
    assert(below.contains(entry.pack@)) by {
        match &tree.node {
            PageMapNode::Leaf { entries } => {
                assert(below =~= packs_listed(entries@));
                let i = choose|i: int| 0 <= i < entries@.len() && entries@[i] == entry;
                assert(packs_listed(entries@)[i] == entry.pack@);
            },
            PageMapNode::Internal { .. } => {
                assert(below =~= forest_refs(tree.children@));
                lemma_forest_pack_needed(tree.children@, entry);
            },
        }
    }
    let k = choose|k: int| 0 <= k < below.len() && below[k] == entry.pack@;
    assert(refs[k + 1] == entry.pack@);
}

proof fn lemma_forest_pack_needed(trees: Seq<Arc<Tree>>, entry: PageMapEntry)
    requires
        entries_of(trees).contains(entry),
    ensures
        forest_refs(trees).contains(entry.pack@),
    decreases trees,
{
    if trees.len() > 0 {
        let front = trees.drop_last();
        let last = trees.last();
        lemma_join_contains(entries_of(front), last.entries());
        let a = forest_refs(front);
        let b = tree_refs(&*last);
        if entries_of(front).contains(entry) {
            lemma_forest_pack_needed(front, entry);
            let k = choose|k: int| 0 <= k < a.len() && a[k] == entry.pack@;
            assert(forest_refs(trees)[k] == entry.pack@);
        } else {
            lemma_pack_needed(last, entry);
            let k = choose|k: int| 0 <= k < b.len() && b[k] == entry.pack@;
            assert(forest_refs(trees)[a.len() + k] == entry.pack@);
        }
    }
}

proof fn lemma_merge_only_changes(changes: Seq<PageMapEntry>, eof: u64)
    requires
        sorted(changes),
    ensures
        is_merge(changes, Seq::empty(), changes, eof),
{
    let none: Seq<PageMapEntry> = Seq::empty();
    assert forall|e: PageMapEntry| #[trigger] changes.contains(e) <==> changes.contains(e) || (
    none.contains(e) && e.page_number <= eof && !maps_page(changes, e.page_number)) by {}
}

} // verus!

//! Resolving a generation: loading its page map and assembling its image.
use crate::bytes::{be32, read_be32, same_bytes};
use crate::cow_writer::{differing, has_page, lists_changes, lists_page, page_of};
use crate::error::{corrupt, ErrorView, RuntimeError};
use crate::hash::{sha256_of, Id, Sha256};
use crate::page_map::{
    PageCodec, PageMapBranch, PageMapEntry, PageMapNode, PageObjectReference, ReferenceView,
};
use crate::physical::{
    add_reference, branches_match, changed_trees, collect, distinct_uris, entries_of, forest_wf,
    former_entries, is_merge, lemma_collect, lemma_collect_join, lemma_forest_member,
    lemma_tree_ordered, mapped, maps_page, packs_listed, persisted, rooted, sorted, viewed,
    ChangedPage, IncrementalImage, PackEntry, PageMapCodec, PagePackCodec, Tree,
};
use crate::reader_engine_pages::sqlite_magic;
use std::sync::Arc;
use vstd::prelude::*;

verus! {

/// The largest encoded page-map node.
pub const MAX_PAGE_MAP_BYTES: u64 = 1048576;

/// The deepest page map.
pub const MAX_HEIGHT: u32 = 64;

/// A node is not empty, and its pages increase.
pub open spec fn node_wf(node: PageMapNode) -> bool {
    match node {
        PageMapNode::Leaf { entries } => entries@.len() > 0 && sorted(entries@),
        PageMapNode::Internal { level, entries } => level > 0 && entries@.len() > 0,
    }
}

/// Whether two nodes say the same.
pub open spec fn same_node(a: PageMapNode, b: PageMapNode) -> bool {
    match (a, b) {
        (PageMapNode::Leaf { entries: x }, PageMapNode::Leaf { entries: y }) => x@ == y@,
        (
            PageMapNode::Internal { level: l, entries: x },
            PageMapNode::Internal { level: m, entries: y },
        ) => l == m && x@ == y@,
        _ => false,
    }
}

fn copy_node(node: &PageMapNode) -> (copy: PageMapNode)
    ensures
        same_node(copy, *node),
{
    match node {
        PageMapNode::Leaf { entries } => {
            let mut copy: Vec<PageMapEntry> = Vec::new();
            let mut i: usize = 0;
            while i < entries.len()
                invariant
                    i <= entries@.len(),
                    copy@ == entries@.take(i as int),
                decreases entries@.len() - i,
            {
                copy.push(entries[i].clone());
                i = i + 1;
                assert(copy@ =~= entries@.take(i as int));
            }
            assert(entries@.take(i as int) =~= entries@);
            PageMapNode::Leaf { entries: copy }
        },
        PageMapNode::Internal { level, entries } => {
            let mut copy: Vec<PageMapBranch> = Vec::new();
            let mut i: usize = 0;
            while i < entries.len()
                invariant
                    i <= entries@.len(),
                    copy@ == entries@.take(i as int),
                decreases entries@.len() - i,
            {
                copy.push(entries[i].clone());
                i = i + 1;
                assert(copy@ =~= entries@.take(i as int));
            }
            assert(entries@.take(i as int) =~= entries@);
            PageMapNode::Internal { level: *level, entries: copy }
        },
    }
}

/// Page-map nodes that were read, each with the reference that authenticated it.
#[derive(Debug)]
pub struct NodeTable {
    references: Vec<PageObjectReference>,
    nodes: Vec<PageMapNode>,
}

impl NodeTable {
    pub closed spec fn wf(&self) -> bool {
        &&& self.references@.len() == self.nodes@.len()
        &&& forall|i: int| 0 <= i < self.nodes@.len() ==> node_wf(#[trigger] self.nodes@[i])
    }

    /// The node that was read for a reference.
    pub closed spec fn node_at(&self, r: ReferenceView) -> Option<PageMapNode> {
        first_node(self.references@, self.nodes@, r)
    }

    pub fn new() -> (table: Self)
        ensures
            table.wf(),
            forall|r: ReferenceView| table.node_at(r) is None,
    {
        NodeTable { references: Vec::new(), nodes: Vec::new() }
    }

    /// Adds a node. A node with nothing in it, or out of order, is refused.
    pub fn add(&mut self, reference: PageObjectReference, node: PageMapNode) -> (r: Result<
        (),
        RuntimeError,
    >)
        requires
            old(self).wf(),
        ensures
            final(self).wf(),
            match r {
                Ok(()) => {
                    &&& node_wf(node)
                    &&& forall|other: ReferenceView| #[trigger]
                        final(self).node_at(other) == match old(self).node_at(other) {
                            Some(known) => Some(known),
                            None => if other == reference@ {
                                Some(node)
                            } else {
                                None
                            },
                        }
                },
                Err(e) => {
                    &&& !node_wf(node)
                    &&& e@ == ErrorView::Corrupt("invalid page-map node"@)
                    &&& *final(self) == *old(self)
                },
            },
    {
        let good: bool = match &node {
            PageMapNode::Leaf { entries } => entries.len() > 0 && increasing(entries),
            PageMapNode::Internal { level, entries } => *level > 0 && entries.len() > 0,
        };
        if !good {
            return Err(corrupt("invalid page-map node"));
        }
        let ghost refs = self.references@;
        let ghost nodes = self.nodes@;
        self.references.push(reference);
        self.nodes.push(node);
        proof {
            assert forall|other: ReferenceView| #[trigger]
                self.node_at(other) == match old(self).node_at(other) {
                    Some(known) => Some(known),
                    None => if other == reference@ {
                        Some(node)
                    } else {
                        None
                    },
                } by {
                lemma_first_node_push(refs, nodes, reference, node, other);
            }
        }
        Ok(())
    }

    fn find(&self, reference: &PageObjectReference) -> (found: Option<usize>)
        requires
            self.wf(),
        ensures
            match found {
                Some(i) => i < self.nodes@.len() && self.node_at(reference@) == Some(
                    self.nodes@[i as int],
                ),
                None => self.node_at(reference@) is None,
            },
    {
        let mut i: usize = 0;
        assert(self.references@.skip(0) =~= self.references@);
        assert(self.nodes@.skip(0) =~= self.nodes@);
        while i < self.references.len()
            invariant
                self.wf(),
                i <= self.references@.len(),
                self.node_at(reference@) == first_node(
                    self.references@.skip(i as int),
                    self.nodes@.skip(i as int),
                    reference@,
                ),
            decreases self.references@.len() - i,
        {
            if self.references[i] == *reference {
                return Some(i);
            }
            proof {
                assert(self.references@.skip(i as int).skip(1) =~= self.references@.skip(i + 1));
                assert(self.nodes@.skip(i as int).skip(1) =~= self.nodes@.skip(i + 1));
            }
            i = i + 1;
        }
        None
    }
}

pub open spec fn first_node(
    references: Seq<PageObjectReference>,
    nodes: Seq<PageMapNode>,
    r: ReferenceView,
) -> Option<PageMapNode>
    decreases references.len(),
{
    if references.len() == 0 {
        None
    } else if references[0]@ == r {
        Some(nodes[0])
    } else {
        first_node(references.skip(1), nodes.skip(1), r)
    }
}

proof fn lemma_first_node_push(
    references: Seq<PageObjectReference>,
    nodes: Seq<PageMapNode>,
    reference: PageObjectReference,
    node: PageMapNode,
    r: ReferenceView,
)
    requires
        references.len() == nodes.len(),
    ensures
        first_node(references.push(reference), nodes.push(node), r) == match first_node(
            references,
            nodes,
            r,
        ) {
            Some(known) => Some(known),
            None => if r == reference@ {
                Some(node)
            } else {
                None
            },
        },
    decreases references.len(),
{
    if references.len() > 0 {
        lemma_first_node_push(references.skip(1), nodes.skip(1), reference, node, r);
        assert(references.push(reference).skip(1) =~= references.skip(1).push(reference));
        assert(nodes.push(node).skip(1) =~= nodes.skip(1).push(node));
    } else {
        reveal_with_fuel(first_node, 2);
    }
}

fn increasing(entries: &Vec<PageMapEntry>) -> (r: bool)
    ensures
        r == sorted(entries@),
{
    let mut i: usize = 1;
    while i < entries.len()
        invariant
            1 <= i,
            i <= entries@.len() || entries@.len() == 0,
            forall|a: int, b: int|
                #![trigger entries@[a], entries@[b]]
                0 <= a < b < i && b < entries@.len() ==> entries@[a].page_number
                    < entries@[b].page_number,
        decreases entries@.len() - i,
    {
        if entries[i - 1].page_number >= entries[i].page_number {
            return false;
        }
        i = i + 1;
    }
    true
}

// ------------------------------------------------------------ loading a map

/// Why a page map is not there.
#[derive(Debug)]
pub enum LoadStop {
    /// This node has to be read first.
    Missing(PageObjectReference),
    Failed(RuntimeError),
}

/// Why a page map or an image is not there, by the reference or the error.
pub enum StopView {
    Missing(ReferenceView),
    Failed(ErrorView),
}

pub open spec fn load_fault(message: Seq<char>) -> StopView {
    StopView::Failed(ErrorView::Corrupt(message))
}

impl View for LoadStop {
    type V = StopView;

    open spec fn view(&self) -> StopView {
        match *self {
            LoadStop::Missing(reference) => StopView::Missing(reference@),
            LoadStop::Failed(e) => StopView::Failed(e@),
        }
    }
}

/// The lower bound of the `n`th branch: where the one before it ends.
pub open spec fn branch_lower(branches: Seq<PageMapBranch>, lower: u64, n: int) -> u64 {
    if n == 0 {
        lower
    } else {
        branches[n - 1].max_page
    }
}

/// What comes of the walk through the map under `r`, over pages above `lower` up
/// to `upper`. Each node has to have the level and the bounds that its parent
/// gives it, is not too large, and is not met twice: then the walk gives the
/// addresses met, after those in `seen`. The first node that breaks a rule, or
/// that has not been read, stops it.
pub open spec fn loadable(
    table: &NodeTable,
    r: ReferenceView,
    level: u32,
    lower: u64,
    upper: u64,
    seen: Seq<Seq<char>>,
) -> Result<Seq<Seq<char>>, StopView>
    decreases level, 0nat,
{
    if level > MAX_HEIGHT || seen.contains(r.uri) || r.length > MAX_PAGE_MAP_BYTES {
        Err(load_fault("invalid page-map height, cycle, repeated subtree, or size"@))
    } else {
        match table.node_at(r) {
            None => Err(StopView::Missing(r)),
            Some(node) => if node.spec_level() != level {
                Err(load_fault("page-map level mismatch"@))
            } else {
                match node {
                    PageMapNode::Leaf { entries } => if lower < entries@[0].page_number
                        && entries@.last().page_number <= upper {
                        Ok(seen.push(r.uri))
                    } else {
                        Err(load_fault("page-map entry outside subtree bounds"@))
                    },
                    PageMapNode::Internal { entries, .. } => if level == 0 {
                        Err(load_fault("page-map level mismatch"@))
                    } else {
                        branches_loadable(
                            table,
                            entries@,
                            (level - 1) as u32,
                            lower,
                            upper,
                            seen.push(r.uri),
                            entries@.len(),
                        )
                    },
                }
            },
        }
    }
}

/// What comes of the walk through the first `n` branches, one after the other.
/// Each subtree has to end at the page that its branch names.
pub open spec fn branches_loadable(
    table: &NodeTable,
    branches: Seq<PageMapBranch>,
    level: u32,
    lower: u64,
    upper: u64,
    seen: Seq<Seq<char>>,
    n: nat,
) -> Result<Seq<Seq<char>>, StopView>
    decreases level, n + 1,
{
    if n == 0 {
        Ok(seen)
    } else {
        match branches_loadable(table, branches, level, lower, upper, seen, (n - 1) as nat) {
            Err(stop) => Err(stop),
            Ok(before) => {
                let branch = branches[n - 1];
                let from = branch_lower(branches, lower, n - 1);
                if branch.max_page <= from || branch.max_page > upper {
                    Err(load_fault("invalid page-map subtree boundary"@))
                } else {
                    match loadable(table, branch.child@, level, from, branch.max_page, before) {
                        Err(stop) => Err(stop),
                        Ok(after) => if table.node_at(branch.child@)->0.spec_max_page() == Some(
                            branch.max_page,
                        ) {
                            Ok(after)
                        } else {
                            Err(load_fault("page-map maximum disagrees with child"@))
                        },
                    }
                }
            },
        }
    }
}

proof fn lemma_branches_stop(
    table: &NodeTable,
    branches: Seq<PageMapBranch>,
    level: u32,
    lower: u64,
    upper: u64,
    seen: Seq<Seq<char>>,
    n: nat,
    m: nat,
)
    requires
        n <= m,
        branches_loadable(table, branches, level, lower, upper, seen, n) is Err,
    ensures
        branches_loadable(table, branches, level, lower, upper, seen, m) == branches_loadable(
            table,
            branches,
            level,
            lower,
            upper,
            seen,
            n,
        ),
    decreases m - n,
{
    if n < m {
        lemma_branches_stop(table, branches, level, lower, upper, seen, n, (m - 1) as nat);
    }
}

/// Every node of the tree is the one that was read for its reference.
pub open spec fn tree_from(tree: &Tree, table: &NodeTable) -> bool
    decreases tree,
{
    &&& table.node_at(tree.reference@) matches Some(node) && same_node(tree.node, node)
    &&& forest_from(tree.children@, table)
}

pub open spec fn forest_from(trees: Seq<Arc<Tree>>, table: &NodeTable) -> bool
    decreases trees,
{
    trees.len() > 0 ==> forest_from(trees.drop_last(), table) && tree_from(&*trees.last(), table)
}

/// Texts by their characters.
pub open spec fn texts(list: Seq<String>) -> Seq<Seq<char>> {
    Seq::new(list.len(), |i: int| list[i]@)
}

fn text_listed(list: &Vec<String>, text: &String) -> (found: bool)
    ensures
        found == texts(list@).contains(text@),
{
    let ghost all = texts(list@);
    let mut i: usize = 0;
    while i < list.len()
        invariant
            i <= list@.len(),
            all == texts(list@),
            forall|k: int| 0 <= k < i ==> #[trigger] all[k] != text@,
        decreases list@.len() - i,
    {
        if list[i] == *text {
            assert(all[i as int] == text@);
            return true;
        }
        assert(all[i as int] != text@);
        i = i + 1;
    }
    false
}

/// Builds the tree under a reference from nodes that were read.
pub fn load_tree(
    table: &NodeTable,
    reference: &PageObjectReference,
    level: u32,
    lower: u64,
    upper: u64,
    seen: &mut Vec<String>,
) -> (r: Result<Arc<Tree>, LoadStop>)
    requires
        table.wf(),
    ensures
        texts(old(seen)@).is_prefix_of(texts(final(seen)@)),
        match r {
            Ok(tree) => {
                &&& loadable(table, reference@, level, lower, upper, texts(old(seen)@)) == Ok::<
                    Seq<Seq<char>>,
                    StopView,
                >(texts(final(seen)@))
                &&& tree.wf()
                &&& tree.level() == level
                &&& tree.reference == *reference
                &&& lower < tree.min
                &&& tree.max <= upper
                &&& tree_from(&*tree, table)
            },
            Err(stop) => loadable(
                table,
                reference@,
                level,
                lower,
                upper,
                texts(old(seen)@),
            ) == Err::<Seq<Seq<char>>, StopView>(stop@),
        },
    decreases level,
{
    if level > MAX_HEIGHT || text_listed(seen, &reference.uri) || reference.length
        > MAX_PAGE_MAP_BYTES {
        return Err(
            LoadStop::Failed(
                corrupt("invalid page-map height, cycle, repeated subtree, or size"),
            ),
        );
    }
    let at: usize = match table.find(reference) {
        None => {
            return Err(LoadStop::Missing(reference.clone()));
        },
        Some(at) => at,
    };
    let ghost first_seen = texts(seen@);
    let held = &table.nodes[at];
    if held.level() != level {
        return Err(LoadStop::Failed(corrupt("page-map level mismatch")));
    }
    seen.push(reference.uri.clone());
    assert(texts(seen@) =~= first_seen.push(reference@.uri));
    let node = copy_node(held);
    match held {
        PageMapNode::Leaf { entries } => {
            let min: u64 = entries[0].page_number;
            let max: u64 = entries[entries.len() - 1].page_number;
            if min <= lower || max > upper {
                return Err(LoadStop::Failed(corrupt("page-map entry outside subtree bounds")));
            }
            Ok(
                Arc::new(
                    Tree { reference: reference.clone(), node, children: Vec::new(), min, max },
                ),
            )
        },
        PageMapNode::Internal { entries, .. } => {
            let ghost start = texts(seen@);
            let below: u32 = level - 1;
            let mut children: Vec<Arc<Tree>> = Vec::new();
            let mut previous: u64 = lower;
            let mut i: usize = 0;
            while i < entries.len()
                invariant
                    table.wf(),
                    texts(old(seen)@).is_prefix_of(texts(seen@)),
                    i <= entries@.len(),
                    level > 0,
                    below == level - 1,
                    table.node_at(reference@) == Some(*held),
                    held is Internal,
                    held->Internal_entries == *entries,
                    held.spec_level() == level,
                    loadable(table, reference@, level, lower, upper, texts(old(seen)@))
                        == branches_loadable(
                        table,
                        entries@,
                        below,
                        lower,
                        upper,
                        start,
                        entries@.len(),
                    ),
                    branches_loadable(table, entries@, below, lower, upper, start, i as nat)
                        == Ok::<Seq<Seq<char>>, StopView>(texts(seen@)),
                    previous == branch_lower(entries@, lower, i as int),
                    i > 0 ==> previous <= upper,
                    children@.len() == i,
                    forest_wf(children@, below),
                    forest_from(children@, table),
                    branches_match(entries@.take(i as int), children@),
                    i > 0 ==> lower < children@[0].min && children@.last().max == previous,
                decreases entries@.len() - i,
            {
                let ghost next = branches_loadable(
                    table,
                    entries@,
                    below,
                    lower,
                    upper,
                    start,
                    (i + 1) as nat,
                );
                proof {
                    if next is Err {
                        lemma_branches_stop(
                            table,
                            entries@,
                            below,
                            lower,
                            upper,
                            start,
                            (i + 1) as nat,
                            entries@.len(),
                        );
                    }
                }
                let branch = &entries[i];
                if branch.max_page <= previous || branch.max_page > upper {
                    return Err(LoadStop::Failed(corrupt("invalid page-map subtree boundary")));
                }
                let child = match load_tree(
                    table,
                    &branch.child,
                    below,
                    previous,
                    branch.max_page,
                    seen,
                ) {
                    Err(stop) => {
                        return Err(stop);
                    },
                    Ok(child) => child,
                };
                proof {
                    lemma_loaded_max(&*child, table);
                }
                if child.max != branch.max_page {
                    return Err(
                        LoadStop::Failed(corrupt("page-map maximum disagrees with child")),
                    );
                }
                previous = branch.max_page;
                let ghost before = children@;
                children.push(child);
                proof {
                    assert(children@.drop_last() =~= before);
                    if i > 0 {
                        assert(children@[children@.len() - 2] == before.last());
                        assert(children@[0] == before[0]);
                    }
                    assert(branches_match(entries@.take(i + 1), children@)) by {
                        assert forall|k: int| 0 <= k < children@.len() implies (
                        #[trigger] entries@.take(i + 1)[k]).max_page == children@[k].max
                            && entries@.take(i + 1)[k].child == children@[k].reference by {
                            if k < i {
                                assert(entries@.take(i as int)[k] == entries@[k]);
                            }
                        }
                    }
                }
                i = i + 1;
            }
            proof {
                assert(entries@.take(i as int) =~= entries@);
            }
            let min: u64 = children[0].min;
            let max: u64 = children[children.len() - 1].max;
            if min <= lower || max > upper {
                return Err(LoadStop::Failed(corrupt("page-map entry outside subtree bounds")));
            }
            let tree = Tree { reference: reference.clone(), node, children, min, max };
            assert(tree.wf());
            Ok(Arc::new(tree))
        },
    }
}

/// The largest page of a loaded tree is the one that its root node names.
proof fn lemma_loaded_max(tree: &Tree, table: &NodeTable)
    requires
        tree.wf(),
        tree_from(tree, table),
    ensures
        table.node_at(tree.reference@)->0.spec_max_page() == Some(tree.max),
{
    match tree.node {
        PageMapNode::Leaf { entries } => {},
        PageMapNode::Internal { level, entries } => {
            let n = entries@.len() - 1;
            assert(entries@[n].max_page == tree.children@[n].max);
        },
    }
}

/// The entries of a tree, from left to right.
pub fn flatten(tree: &Tree) -> (entries: Vec<PageMapEntry>)
    requires
        tree.wf(),
    ensures
        entries@ == tree.entries(),
    decreases tree,
{
    match &tree.node {
        PageMapNode::Leaf { entries } => {
            let mut out: Vec<PageMapEntry> = Vec::new();
            let mut i: usize = 0;
            while i < entries.len()
                invariant
                    i <= entries@.len(),
                    out@ == entries@.take(i as int),
                decreases entries@.len() - i,
            {
                out.push(entries[i].clone());
                i = i + 1;
                assert(out@ =~= entries@.take(i as int));
            }
            assert(entries@.take(i as int) =~= entries@);
            out
        },
        PageMapNode::Internal { level, .. } => {
            let mut out: Vec<PageMapEntry> = Vec::new();
            let mut i: usize = 0;
            assert(tree.children@.take(0) =~= Seq::<Arc<Tree>>::empty());
            while i < tree.children.len()
                invariant
                    i <= tree.children@.len(),
                    forest_wf(tree.children@, (level - 1) as u32),
                    out@ == entries_of(tree.children@.take(i as int)),
                decreases tree.children@.len() - i,
            {
                proof {
                    lemma_forest_member(tree.children@, (level - 1) as u32, i as int);
                    assert(tree.children@.take(i + 1).drop_last() =~= tree.children@.take(
                        i as int,
                    ));
                    assert(tree.children@.take(i + 1).last() == tree.children@[i as int]);
                }
                let mut more = flatten(&tree.children[i]);
                out.append(&mut more);
                i = i + 1;
            }
            assert(tree.children@.take(i as int) =~= tree.children@);
            out
        },
    }
}

// ----------------------------------------------------------- mapped pages

/// A pack that was read, with its index.
#[derive(Debug)]
pub struct LoadedPack {
    pub reference: PageObjectReference,
    pub bytes: Vec<u8>,
    pub page_size: u32,
    pub entries: Vec<PackEntry>,
}

impl LoadedPack {
    /// The index increases, and what it describes lies in the pack.
    pub open spec fn wf(&self) -> bool {
        &&& forall|i: int, j: int|
            #![trigger self.entries@[i], self.entries@[j]]
            0 <= i < j < self.entries@.len() ==> self.entries@[i].page_number
                < self.entries@[j].page_number
        &&& forall|i: int|
            0 <= i < self.entries@.len() ==> (#[trigger] self.entries@[i]).offset
                + self.entries@[i].stored_length <= self.bytes@.len()
    }

    /// The index entry of a page.
    pub open spec fn indexed(&self, page: u64) -> Option<PackEntry> {
        if exists|i: int|
            0 <= i < self.entries@.len() && (#[trigger] self.entries@[i]).page_number == page {
            Some(
                self.entries@[choose|i: int|
                    0 <= i < self.entries@.len() && (#[trigger] self.entries@[i]).page_number
                        == page],
            )
        } else {
            None
        }
    }

    pub open spec fn stored(&self, entry: PageMapEntry) -> Seq<u8> {
        self.bytes@.subrange(entry.offset as int, entry.offset + entry.stored_length)
    }

    /// Searches the index for a page.
    pub fn find(&self, page: u64) -> (found: Option<PackEntry>)
        requires
            self.wf(),
        ensures
            found == self.indexed(page),
    {
        let mut low: usize = 0;
        let mut high: usize = self.entries.len();
        while low < high
            invariant
                self.wf(),
                low <= high <= self.entries@.len(),
                forall|i: int|
                    0 <= i < low ==> (#[trigger] self.entries@[i]).page_number < page,
                forall|i: int|
                    high <= i < self.entries@.len() ==> (#[trigger] self.entries@[i]).page_number
                        > page,
            decreases high - low,
        {
            let middle: usize = low + (high - low) / 2;
            let here: u64 = self.entries[middle].page_number;
            if here == page {
                return Some(self.entries[middle]);
            }
            if here < page {
                low = middle + 1;
            } else {
                high = middle;
            }
        }
        None
    }
}

/// What the zstd frames in some bytes decompress to, if they are sound.
pub uninterp spec fn zstd_frame(frame: Seq<u8>) -> Option<Seq<u8>>;

/// Calls `zstd::bulk::decompress`. What the bytes decompress to is a function of
/// the bytes alone, named `zstd_frame`. Where that fits the capacity, the call
/// gives it; where the bytes are not sound, it fails. Left unsaid is what happens
/// to content beyond the capacity: the allocator may have given room for it.
#[verifier::external_body]
fn zstd_decompress(frame: &[u8], capacity: usize) -> (r: Result<Vec<u8>, RuntimeError>)
    ensures
        zstd_frame(frame@) matches Some(content) && content.len() <= capacity ==> r is Ok,
        r matches Ok(bytes) ==> zstd_frame(frame@) == Some(bytes@),
        r matches Err(e) ==> e@ is Io,
{
    zstd::bulk::decompress(frame, capacity).map_err(|e| RuntimeError::Io(e.to_string()))
}

/// Whether the page map and the pack's index describe the page alike.
pub open spec fn map_agrees(entry: PageMapEntry, indexed: PackEntry) -> bool {
    &&& indexed.offset == entry.offset
    &&& indexed.codec == entry.codec
    &&& indexed.raw_length == entry.raw_length
    &&& indexed.stored_length == entry.stored_length
    &&& indexed.page_sha256 == entry.page_sha256
}

/// Whether `page` is the page that the entry promises.
pub open spec fn is_page(page: Seq<u8>, page_size: u32, hash: Sha256) -> bool {
    page.len() == page_size && sha256_of(page) == hash@
}

/// The page that a pack stores under an entry, if it can be unpacked.
pub open spec fn unpacked(pack: LoadedPack, entry: PageMapEntry) -> Option<Seq<u8>> {
    match entry.codec {
        PageCodec::Plain => Some(pack.stored(entry)),
        PageCodec::Zstd => zstd_frame(pack.stored(entry)),
    }
}

/// Whether a pack gives the page that the entry promises.
pub open spec fn gives_page(pack: LoadedPack, entry: PageMapEntry, page_size: u32) -> bool {
    &&& pack.page_size == page_size
    &&& pack.indexed(entry.page_number) matches Some(indexed) && map_agrees(entry, indexed)
    &&& unpacked(pack, entry) matches Some(page) && is_page(page, page_size, entry.page_sha256)
}

/// Why a pack does not give the page of an entry. A page that is not sound in its
/// compressed form, or too large, may show as a failure of the decompression.
pub open spec fn page_refused(
    pack: LoadedPack,
    entry: PageMapEntry,
    page_size: u32,
    e: ErrorView,
) -> bool {
    if pack.page_size != page_size {
        e == ErrorView::Corrupt("pack page size mismatch"@)
    } else {
        match pack.indexed(entry.page_number) {
            None => e == ErrorView::Corrupt("mapped page absent from pack index"@),
            Some(indexed) => if !map_agrees(entry, indexed) {
                e == ErrorView::Corrupt("map disagrees with pack index"@)
            } else {
                match unpacked(pack, entry) {
                    None => e is Io,
                    Some(page) => {
                        &&& !is_page(page, page_size, entry.page_sha256)
                        &&& e == ErrorView::Corrupt("invalid decompressed page length or hash"@)
                            || (entry.codec is Zstd && page.len() > page_size && e is Io)
                    },
                }
            },
        }
    }
}

/// Checks a page that came out of a pack.
pub fn checked_page(page: Vec<u8>, page_size: u32, hash: &Sha256) -> (r: Result<
    Vec<u8>,
    RuntimeError,
>)
    ensures
        match r {
            Ok(out) => out@ == page@ && is_page(page@, page_size, *hash),
            Err(e) => {
                &&& !is_page(page@, page_size, *hash)
                &&& e@ == ErrorView::Corrupt("invalid decompressed page length or hash"@)
            },
        },
{
    if page.len() as u64 != page_size as u64 || !hash.matches(page.as_slice()) {
        return Err(corrupt("invalid decompressed page length or hash"));
    }
    Ok(page)
}

/// The page that an entry maps, out of its pack.
pub fn page_from_pack(entry: &PageMapEntry, pack: &LoadedPack, page_size: u32) -> (r: Result<
    Vec<u8>,
    RuntimeError,
>)
    requires
        pack.wf(),
    ensures
        match r {
            Ok(page) => gives_page(*pack, *entry, page_size) && unpacked(*pack, *entry) == Some(
                page@,
            ),
            Err(e) => page_refused(*pack, *entry, page_size, e@),
        },
{
    if pack.page_size != page_size {
        return Err(corrupt("pack page size mismatch"));
    }
    let indexed = match pack.find(entry.page_number) {
        None => {
            return Err(corrupt("mapped page absent from pack index"));
        },
        Some(indexed) => indexed,
    };
    if indexed.offset != entry.offset || indexed.codec != entry.codec || indexed.raw_length
        != entry.raw_length || indexed.stored_length != entry.stored_length || indexed.page_sha256
        != entry.page_sha256 {
        return Err(corrupt("map disagrees with pack index"));
    }
    let size: usize = pack.bytes.len();
    let start: usize = entry.offset as usize;
    let end: usize = start + entry.stored_length as usize;
    let stored = &pack.bytes.as_slice()[start..end];
    let page: Vec<u8> = match entry.codec {
        PageCodec::Plain => crate::bytes::copy_range(stored, 0, stored.len()),
        PageCodec::Zstd => match zstd_decompress(stored, page_size as usize) {
            Err(e) => {
                return Err(e);
            },
            Ok(page) => page,
        },
    };
    assert(pack.stored(*entry) =~= stored@);
    assert(stored@.subrange(0, stored@.len() as int) =~= stored@);
    checked_page(page, page_size, &entry.page_sha256)
}

impl LoadedPack {
    /// A pack whose index increases and lies in it.
    pub fn checked(
        reference: PageObjectReference,
        bytes: Vec<u8>,
        page_size: u32,
        entries: Vec<PackEntry>,
    ) -> (r: Result<LoadedPack, RuntimeError>)
        ensures
            match r {
                Ok(pack) => {
                    &&& pack.wf()
                    &&& pack.reference == reference
                    &&& pack.bytes == bytes
                    &&& pack.page_size == page_size
                    &&& pack.entries == entries
                },
                Err(e) => {
                    &&& e@ == ErrorView::Corrupt("invalid page pack index"@)
                    &&& !(LoadedPack { reference, bytes, page_size, entries }).wf()
                },
            },
    {
        let pack = LoadedPack { reference, bytes, page_size, entries };
        let mut i: usize = 0;
        while i < pack.entries.len()
            invariant
                i <= pack.entries@.len(),
                pack == (LoadedPack { reference, bytes, page_size, entries }),
                forall|a: int, b: int|
                    #![trigger pack.entries@[a], pack.entries@[b]]
                    0 <= a < b < i ==> pack.entries@[a].page_number < pack.entries@[b].page_number,
                forall|a: int|
                    0 <= a < i ==> (#[trigger] pack.entries@[a]).offset
                        + pack.entries@[a].stored_length <= pack.bytes@.len(),
            decreases pack.entries@.len() - i,
        {
            let entry = pack.entries[i];
            if i > 0 && pack.entries[i - 1].page_number >= entry.page_number {
                assert(pack.entries@[i - 1].page_number >= pack.entries@[i as int].page_number);
                return Err(corrupt("invalid page pack index"));
            }
            if entry.offset > pack.bytes.len() as u64 || entry.stored_length as u64
                > pack.bytes.len() as u64 - entry.offset {
                assert(pack.entries@[i as int].offset + pack.entries@[i as int].stored_length
                    > pack.bytes@.len());
                return Err(corrupt("invalid page pack index"));
            }
            i = i + 1;
        }
        Ok(pack)
    }
}

// --------------------------------------------------------------- the image

/// Page `n`, counted from one.
pub open spec fn page_at(bytes: Seq<u8>, page_size: int, n: int) -> Seq<u8> {
    bytes.subrange((n - 1) * page_size, (n - 1) * page_size + page_size)
}

/// Whether an entry maps the page that the byte at `pos` lies in.
pub open spec fn mapped_byte(entries: Seq<PageMapEntry>, page_size: int, pos: int) -> bool {
    exists|i: int|
        0 <= i < entries.len() && ((#[trigger] entries[i]).page_number - 1) * page_size <= pos
            < (entries[i].page_number - 1) * page_size + page_size
}

/// What a checkpoint supplies for the byte at `pos`.
pub open spec fn base_byte(checkpoint: Seq<u8>, pos: int) -> u8 {
    if pos < checkpoint.len() {
        checkpoint[pos]
    } else {
        0
    }
}

/// The image has the promised page at every mapped place and the checkpoint's
/// bytes everywhere else.
pub open spec fn assembled(
    image: Seq<u8>,
    checkpoint: Seq<u8>,
    entries: Seq<PageMapEntry>,
    page_size: int,
) -> bool {
    &&& forall|i: int|
        0 <= i < entries.len() ==> sha256_of(
            page_at(image, page_size, (#[trigger] entries[i]).page_number as int),
        ) == entries[i].page_sha256@
    &&& forall|pos: int|
        0 <= pos < image.len() && !mapped_byte(entries, page_size, pos) ==> #[trigger] image[pos]
            == base_byte(checkpoint, pos)
}

/// Entries for pages after `base`.
pub open spec fn pages_after(entries: Seq<PageMapEntry>, base: u64) -> nat
    decreases entries.len(),
{
    if entries.len() == 0 {
        0
    } else {
        pages_after(entries.drop_last(), base) + if entries.last().page_number > base {
            1nat
        } else {
            0
        }
    }
}

/// The checkpoint is a whole number of pages and starts with SQLite's text.
pub open spec fn checkpoint_layout(bytes: Seq<u8>, page_size: u32) -> bool {
    &&& bytes.len() >= page_size
    &&& bytes.len() % page_size as nat == 0
    &&& bytes.len() >= 16
    &&& bytes.subrange(0, 16) == sqlite_magic()
}

/// Checks the layout of a checkpoint.
pub fn check_checkpoint(bytes: &[u8], page_size: u32) -> (r: Result<(), RuntimeError>)
    requires
        page_size > 0,
    ensures
        match r {
            Ok(()) => checkpoint_layout(bytes@, page_size),
            Err(e) => {
                &&& !checkpoint_layout(bytes@, page_size)
                &&& e@ == ErrorView::Corrupt("invalid base checkpoint layout"@)
            },
        },
{
    let size: usize = page_size as usize;
    let magic: [u8; 16] = [
        83,
        81,
        76,
        105,
        116,
        101,
        32,
        102,
        111,
        114,
        109,
        97,
        116,
        32,
        51,
        0,
    ];
    assert(magic@ =~= sqlite_magic());
    if bytes.len() < size || bytes.len() % size != 0 || bytes.len() < 16 || !same_bytes(
        &bytes[0..16],
        magic.as_slice(),
    ) {
        return Err(corrupt("invalid base checkpoint layout"));
    }
    Ok(())
}

/// What a checkpoint's own rows say about it.
#[derive(Debug)]
pub struct BaseIdentity {
    pub table_id: Vec<u8>,
    pub table_version: i64,
    pub page_size: u32,
    pub page_count: u64,
}

/// The checkpoint belongs to the table and version that the generation names,
/// and has the geometry that its length implies.
pub open spec fn base_matches(
    base: BaseIdentity,
    table_id: Id,
    checkpoint_version: u64,
    page_size: u32,
    length: nat,
) -> bool {
    &&& base.table_id@ == table_id@
    &&& base.table_version == checkpoint_version
    &&& base.page_size == page_size
    &&& base.page_count == length / page_size as nat
}

pub fn check_base_identity(
    base: &BaseIdentity,
    table_id: &Id,
    checkpoint_version: u64,
    page_size: u32,
    length: usize,
) -> (r: Result<(), RuntimeError>)
    requires
        page_size > 0,
    ensures
        match r {
            Ok(()) => base_matches(*base, *table_id, checkpoint_version, page_size, length as nat),
            Err(e) => {
                &&& !base_matches(
                    *base,
                    *table_id,
                    checkpoint_version,
                    page_size,
                    length as nat,
                )
                &&& e@ == ErrorView::Corrupt("base checkpoint identity mismatch"@)
            },
        },
{
    if !same_bytes(base.table_id.as_slice(), table_id.bytes.as_slice()) || base.table_version < 0
        || base.table_version as u64 != checkpoint_version || base.page_size != page_size
        || base.page_count != (length / page_size as usize) as u64 {
        return Err(corrupt("base checkpoint identity mismatch"));
    }
    Ok(())
}

/// Why an image is not there.
#[derive(Debug)]
pub enum ImageStop {
    /// This pack has to be read first.
    Missing(PageObjectReference),
    Failed(RuntimeError),
}

impl View for ImageStop {
    type V = StopView;

    open spec fn view(&self) -> StopView {
        match *self {
            ImageStop::Missing(reference) => StopView::Missing(reference@),
            ImageStop::Failed(e) => StopView::Failed(e@),
        }
    }
}

/// Puts a page at its place.
fn place(bytes: &mut Vec<u8>, start: usize, page: &Vec<u8>)
    requires
        start + page@.len() <= old(bytes)@.len(),
    ensures
        final(bytes)@.len() == old(bytes)@.len(),
        forall|pos: int|
            0 <= pos < old(bytes)@.len() ==> #[trigger] final(bytes)@[pos] == if start <= pos
                < start + page@.len() {
                page@[pos - start]
            } else {
                old(bytes)@[pos]
            },
{
    let size: usize = bytes.len();
    let mut i: usize = 0;
    while i < page.len()
        invariant
            i <= page@.len(),
            size == bytes@.len(),
            start + page@.len() <= size,
            bytes@.len() == old(bytes)@.len(),
            forall|pos: int|
                0 <= pos < size ==> #[trigger] bytes@[pos] == if start <= pos < start + i {
                    page@[pos - start]
                } else {
                    old(bytes)@[pos]
                },
        decreases page@.len() - i,
    {
        bytes[start + i] = page[i];
        i = i + 1;
    }
}

fn count_after(entries: &Vec<PageMapEntry>, base: u64) -> (n: u64)
    ensures
        n == pages_after(entries@, base),
{
    let mut n: u64 = 0;
    let mut i: usize = 0;
    while i < entries.len()
        invariant
            i <= entries@.len(),
            n <= i,
            n == pages_after(entries@.take(i as int), base),
        decreases entries@.len() - i,
    {
        assert(entries@.take(i + 1).drop_last() =~= entries@.take(i as int));
        if entries[i].page_number > base {
            n = n + 1;
        }
        i = i + 1;
    }
    assert(entries@.take(i as int) =~= entries@);
    n
}

/// The pack that was read for a reference, if one was.
fn find_pack(packs: &Vec<LoadedPack>, reference: &PageObjectReference) -> (found: Option<usize>)
    ensures
        match found {
            Some(i) => i < packs@.len() && packs@[i as int].reference@ == reference@,
            None => forall|i: int|
                0 <= i < packs@.len() ==> (#[trigger] packs@[i]).reference@ != reference@,
        },
{
    let mut i: usize = 0;
    while i < packs.len()
        invariant
            i <= packs@.len(),
            forall|k: int| 0 <= k < i ==> (#[trigger] packs@[k]).reference@ != reference@,
        decreases packs@.len() - i,
    {
        if packs[i].reference == *reference {
            return Some(i);
        }
        i = i + 1;
    }
    None
}

/// The geometry that an image needs before any page is placed.
pub open spec fn geometry(
    checkpoint: Seq<u8>,
    page_size: u32,
    page_count: u64,
    mapped: bool,
    entries: Seq<PageMapEntry>,
) -> Result<nat, ErrorView> {
    let length = page_count as nat * page_size as nat;
    let base = (checkpoint.len() / page_size as nat) as u64;
    if length > usize::MAX {
        Err(ErrorView::Corrupt("image length overflow"@))
    } else if length == 0 {
        Err(ErrorView::Corrupt("empty metadata image"@))
    } else if !mapped && length != checkpoint.len() {
        Err(ErrorView::Corrupt("incomplete null-map checkpoint"@))
    } else if pages_after(entries, base) != if page_count > base {
        (page_count - base) as nat
    } else {
        0
    } {
        Err(ErrorView::Corrupt("missing extended image page"@))
    } else {
        Ok(length)
    }
}

pub fn check_geometry(
    checkpoint: &[u8],
    page_size: u32,
    page_count: u64,
    mapped: bool,
    entries: &Vec<PageMapEntry>,
) -> (r: Result<usize, RuntimeError>)
    requires
        page_size > 0,
    ensures
        match r {
            Ok(n) => geometry(checkpoint@, page_size, page_count, mapped, entries@) == Ok::<
                nat,
                ErrorView,
            >(n as nat),
            Err(e) => geometry(checkpoint@, page_size, page_count, mapped, entries@) == Err::<
                nat,
                ErrorView,
            >(e@),
        },
{
    let size: usize = page_size as usize;
    if page_count > usize::MAX as u64 {
        proof {
            assert(page_count * page_size > usize::MAX) by (nonlinear_arith)
                requires
                    page_count > usize::MAX,
                    page_size >= 1,
            ;
        }
        return Err(corrupt("image length overflow"));
    }
    let length: usize = match (page_count as usize).checked_mul(size) {
        None => {
            return Err(corrupt("image length overflow"));
        },
        Some(length) => length,
    };
    if length == 0 {
        return Err(corrupt("empty metadata image"));
    }
    if !mapped && length != checkpoint.len() {
        return Err(corrupt("incomplete null-map checkpoint"));
    }
    let base: u64 = (checkpoint.len() / size) as u64;
    let extended: u64 = if page_count > base {
        page_count - base
    } else {
        0
    };
    if count_after(entries, base) != extended {
        return Err(corrupt("missing extended image page"));
    }
    Ok(length)
}

/// Every mapped page can be had from a pack that was read.
pub open spec fn packs_ready(
    entries: Seq<PageMapEntry>,
    packs: Seq<LoadedPack>,
    page_size: u32,
) -> bool {
    &&& collect(Seq::empty(), packs_listed(entries)) is Some
    &&& forall|i: int|
        0 <= i < entries.len() ==> {
            &&& (#[trigger] entries[i]).raw_length == page_size
            &&& exists|k: int|
                0 <= k < packs.len() && (#[trigger] packs[k]).reference@ == entries[i].pack@
            &&& forall|k: int|
                0 <= k < packs.len() && (#[trigger] packs[k]).reference@ == entries[i].pack@
                    ==> gives_page(packs[k], entries[i], page_size)
        }
}

/// The first `n` entries can be had: their packs do not conflict, and of each a
/// pack that was read gives the page.
pub open spec fn ready_up_to(
    entries: Seq<PageMapEntry>,
    packs: Seq<LoadedPack>,
    page_size: u32,
    n: int,
) -> bool {
    &&& collect(Seq::empty(), packs_listed(entries).take(n)) is Some
    &&& forall|i: int|
        0 <= i < n ==> (#[trigger] entries[i]).raw_length == page_size && given(
            packs,
            entries[i],
            page_size,
        )
}

pub open spec fn given(packs: Seq<LoadedPack>, entry: PageMapEntry, page_size: u32) -> bool {
    exists|k: int|
        0 <= k < packs.len() && (#[trigger] packs[k]).reference@ == entry.pack@ && gives_page(
            packs[k],
            entry,
            page_size,
        )
}

/// Why the page of entry `k` cannot be placed.
pub open spec fn entry_fault(
    entries: Seq<PageMapEntry>,
    packs: Seq<LoadedPack>,
    page_size: u32,
    k: int,
    e: ErrorView,
) -> bool {
    let entry = entries[k];
    if entry.raw_length != page_size {
        e == ErrorView::Corrupt("page-map raw length mismatch"@)
    } else if collect(Seq::empty(), packs_listed(entries).take(k + 1)) is None {
        e == ErrorView::Corrupt("conflicting pack references"@)
    } else {
        exists|n: int|
            0 <= n < packs.len() && (#[trigger] packs[n]).reference@ == entry.pack@
                && page_refused(packs[n], entry, page_size, e)
    }
}

/// Entry `k` is the first that cannot be placed, for this reason.
pub open spec fn first_fault(
    entries: Seq<PageMapEntry>,
    packs: Seq<LoadedPack>,
    page_size: u32,
    k: int,
    e: ErrorView,
) -> bool {
    &&& 0 <= k < entries.len()
    &&& ready_up_to(entries, packs, page_size, k)
    &&& entry_fault(entries, packs, page_size, k, e)
}

/// Entry `k` is the first that cannot be placed, because its pack was not read.
pub open spec fn first_missing(
    entries: Seq<PageMapEntry>,
    packs: Seq<LoadedPack>,
    page_size: u32,
    k: int,
    missing: ReferenceView,
) -> bool {
    &&& 0 <= k < entries.len()
    &&& ready_up_to(entries, packs, page_size, k)
    &&& entries[k].raw_length == page_size
    &&& collect(Seq::empty(), packs_listed(entries).take(k + 1)) is Some
    &&& entries[k].pack@ == missing
    &&& forall|i: int| 0 <= i < packs.len() ==> (#[trigger] packs[i]).reference@ != missing
}

/// The pages make an image whose header names another number of pages.
pub open spec fn header_fault(
    image: Seq<u8>,
    checkpoint: Seq<u8>,
    page_size: u32,
    page_count: u64,
    mapped: bool,
    entries: Seq<PageMapEntry>,
) -> bool {
    &&& geometry(checkpoint, page_size, page_count, mapped, entries) == Ok::<nat, ErrorView>(
        image.len(),
    )
    &&& assembled(image, checkpoint, entries, page_size as int)
    &&& be32(image, 28) != page_count
}

pub open spec fn map_entries(tree: Option<&Arc<Tree>>) -> Seq<PageMapEntry> {
    match tree {
        Some(tree) => tree.entries(),
        None => Seq::empty(),
    }
}

/// Places of different pages do not overlap, and all lie in the image.
proof fn lemma_places(page_size: int, a: int, b: int, count: int)
    requires
        page_size > 0,
        1 <= a < b <= count,
    ensures
        (a - 1) * page_size + page_size <= (b - 1) * page_size,
        (b - 1) * page_size + page_size <= count * page_size,
        0 <= (a - 1) * page_size,
{
    assert((a - 1) * page_size + page_size <= (b - 1) * page_size) by (nonlinear_arith)
        requires
            page_size > 0,
            a < b,
    ;
    assert((b - 1) * page_size + page_size <= count * page_size) by (nonlinear_arith)
        requires
            page_size > 0,
            b <= count,
    ;
    assert(0 <= (a - 1) * page_size) by (nonlinear_arith)
        requires
            page_size > 0,
            1 <= a,
    ;
}

proof fn lemma_place_inside(page_size: int, n: int, count: int)
    requires
        page_size > 0,
        1 <= n <= count,
    ensures
        0 <= (n - 1) * page_size,
        (n - 1) * page_size + page_size <= count * page_size,
        n <= count * page_size,
{
    assert(n - 1 <= (n - 1) * page_size) by (nonlinear_arith)
        requires
            page_size > 0,
            1 <= n,
    ;
    assert(0 <= (n - 1) * page_size) by (nonlinear_arith)
        requires
            page_size > 0,
            1 <= n,
    ;
    assert((n - 1) * page_size + page_size <= count * page_size) by (nonlinear_arith)
        requires
            page_size > 0,
            n <= count,
    ;
}

/// One more page placed.
proof fn lemma_assembled_step(
    before: Seq<u8>,
    after: Seq<u8>,
    checkpoint: Seq<u8>,
    entries: Seq<PageMapEntry>,
    k: int,
    page: Seq<u8>,
    page_size: int,
    count: int,
)
    requires
        page_size > 0,
        0 <= k < entries.len(),
        sorted(entries),
        forall|i: int| 0 <= i < entries.len() ==> 1 <= (#[trigger] entries[i]).page_number <= count,
        before.len() == count * page_size,
        after.len() == before.len(),
        assembled(before, checkpoint, entries.take(k), page_size),
        page.len() == page_size,
        sha256_of(page) == entries[k].page_sha256@,
        forall|pos: int|
            0 <= pos < before.len() ==> #[trigger] after[pos] == if (entries[k].page_number - 1)
                * page_size <= pos < (entries[k].page_number - 1) * page_size + page_size {
                page[pos - (entries[k].page_number - 1) * page_size]
            } else {
                before[pos]
            },
    ensures
        assembled(after, checkpoint, entries.take(k + 1), page_size),
{
    let done = entries.take(k);
    let next = entries.take(k + 1);
    let n = entries[k].page_number as int;
    lemma_place_inside(page_size, n, count);
    assert forall|i: int| 0 <= i < next.len() implies sha256_of(
        page_at(after, page_size, (#[trigger] next[i]).page_number as int),
    ) == next[i].page_sha256@ by {
        let m = next[i].page_number as int;
        assert(next[i] == entries[i]);
        if i == k {
            assert(page_at(after, page_size, m) =~= page);
        } else {
            assert(entries[i].page_number < entries[k].page_number);
            lemma_places(page_size, m, n, count);
            assert(done[i] == entries[i]);
            assert(page_at(after, page_size, m) =~= page_at(before, page_size, m));
        }
    }
    assert forall|pos: int|
        0 <= pos < after.len() && !mapped_byte(next, page_size, pos) implies #[trigger] after[pos]
        == base_byte(checkpoint, pos) by {
        assert(next[k] == entries[k]);
        assert(!mapped_byte(done, page_size, pos)) by {
            if mapped_byte(done, page_size, pos) {
                let i = choose|i: int|
                    0 <= i < done.len() && ((#[trigger] done[i]).page_number - 1) * page_size <= pos
                        < (done[i].page_number - 1) * page_size + page_size;
                assert(next[i] == done[i]);
            }
        }
        assert(before[pos] == base_byte(checkpoint, pos));
    }
}

fn base_image(checkpoint: &[u8], length: usize) -> (bytes: Vec<u8>)
    ensures
        bytes@.len() == length,
        forall|pos: int| 0 <= pos < length ==> #[trigger] bytes@[pos] == base_byte(checkpoint@, pos),
{
    let mut bytes: Vec<u8> = Vec::new();
    while bytes.len() < length
        invariant
            bytes@.len() <= length,
            forall|pos: int|
                0 <= pos < bytes@.len() ==> #[trigger] bytes@[pos] == base_byte(checkpoint@, pos),
        decreases length - bytes@.len(),
    {
        let pos: usize = bytes.len();
        if pos < checkpoint.len() {
            bytes.push(checkpoint[pos]);
        } else {
            bytes.push(0);
        }
    }
    bytes
}

/// The page of entry `k`, whose pack joins those that are used.
#[verifier::rlimit(40)]
fn entry_page(
    entries: &Vec<PageMapEntry>,
    k: usize,
    packs: &Vec<LoadedPack>,
    page_size: u32,
    used: &mut Vec<PageObjectReference>,
) -> (r: Result<Vec<u8>, ImageStop>)
    requires
        k < entries@.len(),
        page_size >= 32,
        forall|i: int| 0 <= i < packs@.len() ==> (#[trigger] packs@[i]).wf(),
        collect(Seq::empty(), packs_listed(entries@).take(k as int)) == Some(viewed(old(used)@)),
        distinct_uris(viewed(old(used)@)),
        ready_up_to(entries@, packs@, page_size, k as int),
    ensures
        match r {
            Ok(page) => {
                &&& is_page(page@, page_size, entries@[k as int].page_sha256)
                &&& collect(Seq::empty(), packs_listed(entries@).take(k + 1)) == Some(
                    viewed(final(used)@),
                )
                &&& distinct_uris(viewed(final(used)@))
                &&& ready_up_to(entries@, packs@, page_size, k + 1)
            },
            Err(ImageStop::Missing(missing)) => {
                &&& !packs_ready(entries@, packs@, page_size)
                &&& first_missing(entries@, packs@, page_size, k as int, missing@)
            },
            Err(ImageStop::Failed(e)) => {
                &&& !packs_ready(entries@, packs@, page_size)
                &&& first_fault(entries@, packs@, page_size, k as int, e@)
            },
        },
{
    let ghost listed = packs_listed(entries@);
    let entry = &entries[k];
    if entry.raw_length != page_size {
        return Err(ImageStop::Failed(corrupt("page-map raw length mismatch")));
    }
    proof {
        assert(listed.take(k + 1).drop_last() =~= listed.take(k as int));
        assert(listed.take(k + 1).last() == entries@[k as int].pack@);
        assert(listed =~= listed.take(k + 1) + listed.skip(k + 1));
        lemma_collect_join(Seq::empty(), listed.take(k + 1), listed.skip(k + 1));
    }
    match add_reference(used, &entry.pack) {
        Err(_) => {
            return Err(ImageStop::Failed(corrupt("conflicting pack references")));
        },
        Ok(()) => {},
    }
    proof {
        lemma_collect(Seq::empty(), listed.take(k + 1));
    }
    let at: usize = match find_pack(packs, &entry.pack) {
        None => {
            return Err(ImageStop::Missing(entry.pack.clone()));
        },
        Some(at) => at,
    };
    assert(packs@[at as int].reference@ == entries@[k as int].pack@);
    match page_from_pack(entry, &packs[at], page_size) {
        Err(e) => Err(ImageStop::Failed(e)),
        Ok(page) => {
            assert(given(packs@, entries@[k as int], page_size));
            Ok(page)
        },
    }
}

/// Why a generation's image cannot be assembled.
pub open spec fn assembly_fault(
    checkpoint: Seq<u8>,
    page_size: u32,
    page_count: u64,
    mapped: bool,
    entries: Seq<PageMapEntry>,
    packs: Seq<LoadedPack>,
    stop: StopView,
) -> bool {
    let sized = geometry(checkpoint, page_size, page_count, mapped, entries);
    match stop {
        StopView::Missing(missing) => {
            &&& sized is Ok
            &&& !packs_ready(entries, packs, page_size)
            &&& exists|k: int| #[trigger] first_missing(entries, packs, page_size, k, missing)
        },
        StopView::Failed(e) => {
            ||| sized == Err::<nat, ErrorView>(e)
            ||| {
                &&& sized is Ok
                &&& !packs_ready(entries, packs, page_size)
                &&& exists|k: int| #[trigger] first_fault(entries, packs, page_size, k, e)
            }
            ||| {
                &&& ready_up_to(entries, packs, page_size, entries.len() as int)
                &&& exists|image: Seq<u8>| #[trigger]
                    header_fault(image, checkpoint, page_size, page_count, mapped, entries)
                &&& e == ErrorView::Corrupt("resolved header page count mismatch"@)
            }
        },
    }
}

/// Assembles the image of a generation from its checkpoint and its page map.
#[verifier::rlimit(40)]
pub fn assemble(
    checkpoint: &[u8],
    page_size: u32,
    page_count: u64,
    tree: Option<&Arc<Tree>>,
    packs: &Vec<LoadedPack>,
) -> (r: Result<Vec<u8>, ImageStop>)
    requires
        page_size >= 32,
        tree matches Some(tree) ==> tree.wf() && 1 <= tree.min && tree.max <= page_count,
        forall|i: int| 0 <= i < packs@.len() ==> (#[trigger] packs@[i]).wf(),
    ensures
        match r {
            Ok(image) => {
                let entries = map_entries(tree);
                &&& geometry(checkpoint@, page_size, page_count, tree is Some, entries) == Ok::<
                    nat,
                    ErrorView,
                >(image@.len())
                &&& assembled(image@, checkpoint@, entries, page_size as int)
                &&& collect(Seq::empty(), packs_listed(entries)) is Some
                &&& be32(image@, 28) == page_count
            },
            Err(stop) => assembly_fault(
                checkpoint@,
                page_size,
                page_count,
                tree is Some,
                map_entries(tree),
                packs@,
                stop@,
            ),
        },
{
    let entries: Vec<PageMapEntry> = match tree {
        Some(tree) => flatten(tree),
        None => Vec::new(),
    };
    let ghost all = entries@;
    proof {
        assert(all =~= map_entries(tree));
        match tree {
            Some(tree) => {
                lemma_tree_ordered(*tree);
            },
            None => {},
        }
        assert forall|i: int| 0 <= i < all.len() implies 1 <= (#[trigger] all[i]).page_number
            <= page_count by {
            if i > 0 {
                assert(all[0].page_number < all[i].page_number);
            }
            if i < all.len() - 1 {
                assert(all[i].page_number < all.last().page_number);
            }
        }
    }
    let length: usize = match check_geometry(
        checkpoint,
        page_size,
        page_count,
        tree.is_some(),
        &entries,
    ) {
        Err(e) => {
            return Err(ImageStop::Failed(e));
        },
        Ok(length) => length,
    };
    let mut bytes = base_image(checkpoint, length);
    let mut used: Vec<PageObjectReference> = Vec::new();
    let ghost listed = packs_listed(all);
    let size: usize = page_size as usize;
    proof {
        assert(all.take(0) =~= Seq::<PageMapEntry>::empty());
        assert(listed.take(0) =~= Seq::<ReferenceView>::empty());
        assert(ready_up_to(all, packs@, page_size, 0));
        assert(viewed(used@) =~= Seq::<ReferenceView>::empty());
    }
    let mut k: usize = 0;
    while k < entries.len()
        invariant
            k <= entries@.len(),
            page_size >= 32,
            size == page_size,
            all == entries@,
            all == map_entries(tree),
            listed == packs_listed(all),
            sorted(all),
            forall|i: int| 0 <= i < packs@.len() ==> (#[trigger] packs@[i]).wf(),
            forall|i: int|
                0 <= i < all.len() ==> 1 <= (#[trigger] all[i]).page_number <= page_count,
            bytes@.len() == length,
            length == page_count * page_size,
            assembled(bytes@, checkpoint@, all.take(k as int), page_size as int),
            collect(Seq::empty(), listed.take(k as int)) == Some(viewed(used@)),
            distinct_uris(viewed(used@)),
            ready_up_to(all, packs@, page_size, k as int),
            geometry(checkpoint@, page_size, page_count, tree is Some, all) == Ok::<
                nat,
                ErrorView,
            >(length as nat),
        decreases entries@.len() - k,
    {
        let page: Vec<u8> = match entry_page(&entries, k, packs, page_size, &mut used) {
            Err(stop) => {
                proof {
                    if let StopView::Missing(missing) = stop@ {
                        assert(first_missing(all, packs@, page_size, k as int, missing));
                    } else {
                        assert(first_fault(all, packs@, page_size, k as int, stop@->Failed_0));
                    }
                }
                return Err(stop);
            },
            Ok(page) => page,
        };
        proof {
            lemma_place_inside(
                page_size as int,
                all[k as int].page_number as int,
                page_count as int,
            );
        }
        let start: usize = (entries[k].page_number as usize - 1) * size;
        let ghost before = bytes@;
        place(&mut bytes, start, &page);
        proof {
            lemma_assembled_step(
                before,
                bytes@,
                checkpoint@,
                all,
                k as int,
                page@,
                page_size as int,
                page_count as int,
            );
        }
        k = k + 1;
    }
    proof {
        assert(all.take(k as int) =~= all);
        assert(listed.take(k as int) =~= listed);
        assert(page_count * page_size >= 32) by (nonlinear_arith)
            requires
                page_count * page_size > 0,
                page_size >= 32,
                page_count >= 0,
        ;
    }
    if read_be32(bytes.as_slice(), 28) != page_count {
        assert(header_fault(
            bytes@,
            checkpoint@,
            page_size,
            page_count,
            tree is Some,
            all,
        ));
        return Err(ImageStop::Failed(corrupt("resolved header page count mismatch")));
    }
    Ok(bytes)
}

// ------------------------------------------------------- what was written

/// The changes map every page on which the new image differs from its parent,
/// each by its digest, and no other page.
pub open spec fn changes_cover(
    changes: Seq<PageMapEntry>,
    parent: Seq<u8>,
    image: Seq<u8>,
) -> bool {
    let pages = differing(parent, image);
    &&& forall|i: int|
        0 <= i < changes.len() ==> pages.contains_key((#[trigger] changes[i]).page_number)
            && changes[i].page_sha256@ == sha256_of(pages[changes[i].page_number])
    &&& forall|n: u64| #[trigger] pages.contains_key(n) ==> maps_page(changes, n)
}

/// An image that was written as the changes to its parent reads back: on the same
/// checkpoint, what the new map assembles has on every page the digest of the
/// page that was written.
pub proof fn lemma_changed_image_reads_back(
    checkpoint: Seq<u8>,
    parent: Seq<u8>,
    former: Seq<PageMapEntry>,
    image: Seq<u8>,
    changes: Seq<PageMapEntry>,
    merged: Seq<PageMapEntry>,
    read: Seq<u8>,
    eof: u64,
    n: int,
)
    requires
        image.len() == eof * 4096,
        read.len() == image.len(),
        assembled(parent, checkpoint, former, 4096),
        changes_cover(changes, parent, image),
        is_merge(merged, former, changes, eof),
        assembled(read, checkpoint, merged, 4096),
        1 <= n <= eof,
    ensures
        sha256_of(page_at(read, 4096, n)) == sha256_of(page_at(image, 4096, n)),
{
    let pages = differing(parent, image);
    let number = n as u64;
    assert(page_at(image, 4096, n) == page_of(image, n - 1));
    if maps_page(changes, number) {
        let i = choose|i: int|
            0 <= i < changes.len() && (#[trigger] changes[i]).page_number == number;
        assert(changes.contains(changes[i]));
        assert(merged.contains(changes[i]));
        let k = choose|k: int| 0 <= k < merged.len() && merged[k] == changes[i];
        assert(merged[k].page_number == number);
    } else {
        assert(!pages.contains_key(number));
        assert(has_page(parent, n - 1));
        assert(page_of(parent, n - 1) == page_of(image, n - 1));
        if maps_page(former, number) {
            let i = choose|i: int|
                0 <= i < former.len() && (#[trigger] former[i]).page_number == number;
            assert(former.contains(former[i]));
            assert(merged.contains(former[i]));
            let k = choose|k: int| 0 <= k < merged.len() && merged[k] == former[i];
            assert(merged[k].page_number == number);
            assert(sha256_of(page_at(parent, 4096, former[i].page_number as int))
                == former[i].page_sha256@);
            assert(page_at(parent, 4096, n) == page_of(parent, n - 1));
        } else {
            assert forall|pos: int| (n - 1) * 4096 <= pos < (n - 1) * 4096 + 4096 implies !mapped_byte(
                former,
                4096,
                pos,
            ) && !mapped_byte(merged, 4096, pos) by {
                if mapped_byte(former, 4096, pos) {
                    let i = choose|i: int|
                        0 <= i < former.len() && ((#[trigger] former[i]).page_number - 1) * 4096
                            <= pos < (former[i].page_number - 1) * 4096 + 4096;
                    assert(former[i].page_number == number);
                }
                if mapped_byte(merged, 4096, pos) {
                    let i = choose|i: int|
                        0 <= i < merged.len() && ((#[trigger] merged[i]).page_number - 1) * 4096
                            <= pos < (merged[i].page_number - 1) * 4096 + 4096;
                    assert(merged.contains(merged[i]));
                    assert(merged[i].page_number == number);
                    if changes.contains(merged[i]) {
                        let k = choose|k: int| 0 <= k < changes.len() && changes[k] == merged[i];
                        assert(changes[k].page_number == number);
                    } else {
                        let k = choose|k: int| 0 <= k < former.len() && former[k] == merged[i];
                        assert(former[k].page_number == number);
                    }
                }
            }
            assert forall|b: int| 0 <= b < 4096 implies page_at(read, 4096, n)[b] == page_at(
                image,
                4096,
                n,
            )[b] by {
                let pos = (n - 1) * 4096 + b;
                assert(read[pos] == base_byte(checkpoint, pos));
                assert(parent[pos] == base_byte(checkpoint, pos));
                assert(page_of(parent, n - 1)[b] == parent[pos]);
            }
            assert(page_at(read, 4096, n) =~= page_at(image, 4096, n));
        }
    }
}

/// What was written reads back: the changed pages of an image that were persisted
/// over a parent's map are, with that map and on the same checkpoint, an image
/// with the digest of the written page on every page.
pub proof fn lemma_written_image_reads_back<C: PageMapCodec + PagePackCodec>(
    codec: &C,
    written: IncrementalImage,
    tree: Option<&Arc<Tree>>,
    pages: Seq<ChangedPage>,
    eof: u64,
    checkpoint: Seq<u8>,
    parent: Seq<u8>,
    image: Seq<u8>,
    read: Seq<u8>,
    n: int,
)
    requires
        persisted(codec, written, tree, pages, eof),
        lists_changes(pages, differing(parent, image)),
        image.len() == eof * 4096,
        read.len() == image.len(),
        assembled(parent, checkpoint, map_entries(tree), 4096),
        assembled(
            read,
            checkpoint,
            match written.tree {
                Some(tree) => tree.entries(),
                None => Seq::empty(),
            },
            4096,
        ),
        1 <= n <= eof,
    ensures
        sha256_of(page_at(read, 4096, n)) == sha256_of(page_at(image, 4096, n)),
{
    let (changes, trees) = choose|changes: Seq<PageMapEntry>, trees: Seq<Arc<Tree>>|
        {
            &&& #[trigger] mapped(codec, changes, pages, eof)
            &&& #[trigger] changed_trees(codec, tree, changes, eof, trees)
            &&& rooted(codec, trees, written.tree)
            &&& written.wf(tree, changes, eof)
        };
    let differ = differing(parent, image);
    assert(changes_cover(changes, parent, image)) by {
        assert forall|i: int| 0 <= i < changes.len() implies differ.contains_key(
            (#[trigger] changes[i]).page_number,
        ) && changes[i].page_sha256@ == sha256_of(differ[changes[i].page_number]) by {
            assert(differ.contains_key(pages[i].number));
        }
        assert forall|m: u64| #[trigger] differ.contains_key(m) implies maps_page(changes, m) by {
            assert(lists_page(pages, m));
            let i = choose|i: int| 0 <= i < pages.len() && (#[trigger] pages[i]).number == m;
            assert(changes[i].page_number == m);
        }
    }
    assert(former_entries(tree) == map_entries(tree));
    lemma_changed_image_reads_back(
        checkpoint,
        parent,
        map_entries(tree),
        image,
        changes,
        match written.tree {
            Some(tree) => tree.entries(),
            None => Seq::empty(),
        },
        read,
        eof,
        n,
    );
}

} // verus!

//! Reading single pages of an image, each checked on its way from the root.
use crate::checkpoint_index::{
    built, indexes, lemma_span, lemma_width, listed_as, page_digests, roots, run_end, span, width,
    CheckpointIndexChild, CheckpointIndexCodec, CheckpointIndexNode, CheckpointPageIndex,
};
use crate::error::{corrupt, ErrorView, RuntimeError};
use crate::hash::{sha256_of, Sha256};
use crate::page_map::{
    Artifact, PageMapBranch, PageMapEntry, PageMapNode, PageMapRoot, PageObjectReference, CAPACITY,
};
use crate::physical::{
    entries_of, lemma_forest_member, lemma_forest_ordered, lemma_forest_split, lemma_tree_ordered,
    sorted, Tree,
};
use std::sync::Arc;
use vstd::prelude::*;

verus! {

// -------------------------------------------------------- the page-map walk

/// What a walk through a page map knows of the node that it reads next.
#[derive(Clone, Copy, Debug)]
pub struct MapWalk {
    pub height: u32,
    /// All pages of the node are above this one.
    pub lower: u64,
    /// No page of the node is above this one.
    pub upper: u64,
    pub is_root: bool,
}

/// Where a walk goes after a node.
#[derive(Debug)]
pub enum MapStep {
    Found(PageMapEntry),
    Unmapped,
    Descend { reference: PageObjectReference, walk: MapWalk },
}

/// The entry of a page.
pub open spec fn entry_of(entries: Seq<PageMapEntry>, page: u64) -> Option<PageMapEntry>
    decreases entries.len(),
{
    if entries.len() == 0 {
        None
    } else if entries[0].page_number == page {
        Some(entries[0])
    } else {
        entry_of(entries.skip(1), page)
    }
}

/// How many branches end before a page.
pub open spec fn passed(branches: Seq<PageMapBranch>, page: u64) -> nat
    decreases branches.len(),
{
    if branches.len() == 0 || branches[0].max_page >= page {
        0
    } else {
        1 + passed(branches.skip(1), page)
    }
}

/// Whether a node has the height and the pages that the walk promises.
pub open spec fn fits(node: PageMapNode, walk: MapWalk) -> bool {
    &&& node.spec_level() == walk.height
    &&& node.spec_max_page() matches Some(max) && max <= walk.upper && (walk.is_root || max
        == walk.upper)
    &&& node is Internal ==> walk.height > 0
}

/// Where a walk to a page goes after a node.
pub open spec fn map_next(node: PageMapNode, walk: MapWalk, page: u64) -> Result<MapStep, ErrorView> {
    if !fits(node, walk) {
        Err(ErrorView::Corrupt("invalid page-map height or interval"@))
    } else {
        match node {
            PageMapNode::Leaf { entries } => if entries@[0].page_number <= walk.lower {
                Err(ErrorView::Corrupt("overlapping page-map interval"@))
            } else {
                match entry_of(entries@, page) {
                    Some(entry) => Ok(MapStep::Found(entry)),
                    None => Ok(MapStep::Unmapped),
                }
            },
            PageMapNode::Internal { entries, .. } => if entries@[0].max_page <= walk.lower {
                Err(ErrorView::Corrupt("overlapping page-map child interval"@))
            } else {
                let at = passed(entries@, page) as int;
                if at >= entries@.len() {
                    Ok(MapStep::Unmapped)
                } else {
                    Ok(
                        MapStep::Descend {
                            reference: entries@[at].child,
                            walk: MapWalk {
                                height: (walk.height - 1) as u32,
                                lower: if at > 0 {
                                    entries@[at - 1].max_page
                                } else {
                                    walk.lower
                                },
                                upper: entries@[at].max_page,
                                is_root: false,
                            },
                        },
                    )
                }
            },
        }
    }
}

/// The walk that starts at the root of a map over `pages` pages.
pub fn start_map(root: &PageMapRoot, pages: u64) -> (walk: MapWalk)
    ensures
        walk == (MapWalk { height: root.height, lower: 0, upper: pages, is_root: true }),
{
    MapWalk { height: root.height, lower: 0, upper: pages, is_root: true }
}

fn find_entry(entries: &Vec<PageMapEntry>, page: u64) -> (found: Option<PageMapEntry>)
    ensures
        found == entry_of(entries@, page),
{
    let mut i: usize = 0;
    assert(entries@.skip(0) =~= entries@);
    while i < entries.len()
        invariant
            i <= entries@.len(),
            entry_of(entries@, page) == entry_of(entries@.skip(i as int), page),
        decreases entries@.len() - i,
    {
        assert(entries@.skip(i as int)[0] == entries@[i as int]);
        assert(entries@.skip(i as int).skip(1) =~= entries@.skip(i + 1));
        if entries[i].page_number == page {
            return Some(entries[i].clone());
        }
        i = i + 1;
    }
    None
}

fn count_passed(branches: &Vec<PageMapBranch>, page: u64) -> (n: usize)
    ensures
        n == passed(branches@, page),
        n <= branches@.len(),
{
    let mut i: usize = 0;
    assert(branches@.skip(0) =~= branches@);
    while i < branches.len()
        invariant
            i <= branches@.len(),
            passed(branches@, page) == i + passed(branches@.skip(i as int), page),
        decreases branches@.len() - i,
    {
        assert(branches@.skip(i as int)[0] == branches@[i as int]);
        assert(branches@.skip(i as int).skip(1) =~= branches@.skip(i + 1));
        if branches[i].max_page >= page {
            return i;
        }
        i = i + 1;
    }
    i
}

/// Takes one step of the walk to a page.
pub fn map_step(node: &PageMapNode, walk: &MapWalk, page: u64) -> (r: Result<MapStep, RuntimeError>)
    ensures
        match r {
            Ok(step) => map_next(*node, *walk, page) == Ok::<MapStep, ErrorView>(step),
            Err(e) => map_next(*node, *walk, page) == Err::<MapStep, ErrorView>(e@),
        },
{
    let max: u64 = match node.max_page() {
        None => {
            return Err(corrupt("invalid page-map height or interval"));
        },
        Some(max) => max,
    };
    if node.level() != walk.height || max > walk.upper || (!walk.is_root && max != walk.upper) {
        return Err(corrupt("invalid page-map height or interval"));
    }
    match node {
        PageMapNode::Leaf { entries } => {
            if entries[0].page_number <= walk.lower {
                return Err(corrupt("overlapping page-map interval"));
            }
            match find_entry(entries, page) {
                Some(entry) => Ok(MapStep::Found(entry)),
                None => Ok(MapStep::Unmapped),
            }
        },
        PageMapNode::Internal { entries, .. } => {
            if walk.height == 0 {
                return Err(corrupt("invalid page-map height or interval"));
            }
            if entries[0].max_page <= walk.lower {
                return Err(corrupt("overlapping page-map child interval"));
            }
            let at: usize = count_passed(entries, page);
            if at >= entries.len() {
                return Ok(MapStep::Unmapped);
            }
            let lower: u64 = if at > 0 {
                entries[at - 1].max_page
            } else {
                walk.lower
            };
            Ok(
                MapStep::Descend {
                    reference: entries[at].child.clone(),
                    walk: MapWalk {
                        height: walk.height - 1,
                        lower,
                        upper: entries[at].max_page,
                        is_root: false,
                    },
                },
            )
        },
    }
}

proof fn lemma_entry_join(a: Seq<PageMapEntry>, b: Seq<PageMapEntry>, page: u64)
    ensures
        entry_of(a + b, page) == (match entry_of(a, page) {
            Some(entry) => Some(entry),
            None => entry_of(b, page),
        }),
    decreases a.len(),
{
    if a.len() == 0 {
        assert(a + b =~= b);
    } else {
        assert((a + b)[0] == a[0]);
        assert((a + b).skip(1) =~= a.skip(1) + b);
        lemma_entry_join(a.skip(1), b, page);
    }
}

proof fn lemma_entry_absent(entries: Seq<PageMapEntry>, page: u64)
    requires
        forall|i: int| 0 <= i < entries.len() ==> (#[trigger] entries[i]).page_number != page,
    ensures
        entry_of(entries, page) is None,
    decreases entries.len(),
{
    if entries.len() > 0 {
        assert(entries[0].page_number != page);
        assert forall|i: int| 0 <= i < entries.skip(1).len() implies (#[trigger] entries.skip(
            1,
        )[i]).page_number != page by {
            assert(entries.skip(1)[i] == entries[i + 1]);
        }
        lemma_entry_absent(entries.skip(1), page);
    }
}

proof fn lemma_passed(branches: Seq<PageMapBranch>, page: u64)
    ensures
        passed(branches, page) <= branches.len(),
        forall|i: int|
            0 <= i < passed(branches, page) ==> (#[trigger] branches[i]).max_page < page,
        passed(branches, page) < branches.len() ==> branches[passed(
            branches,
            page,
        ) as int].max_page >= page,
    decreases branches.len(),
{
    if branches.len() > 0 && branches[0].max_page < page {
        let rest = branches.skip(1);
        lemma_passed(rest, page);
        assert forall|i: int| 0 <= i < passed(branches, page) implies (#[trigger] branches[i]).max_page
            < page by {
            if i > 0 {
                assert(rest[i - 1] == branches[i]);
            }
        }
        if passed(rest, page) < rest.len() {
            assert(rest[passed(rest, page) as int] == branches[passed(branches, page) as int]);
        }
    }
}

/// A tree is what the walk expects to find.
pub open spec fn expected(tree: Tree, walk: MapWalk) -> bool {
    &&& tree.wf()
    &&& tree.level() == walk.height
    &&& walk.lower < tree.min
    &&& tree.max <= walk.upper
    &&& walk.is_root || tree.max == walk.upper
}

/// Where a walk to a page goes after the root of a tree.
pub open spec fn next_in(tree: Arc<Tree>, walk: MapWalk, page: u64) -> Result<MapStep, ErrorView> {
    map_next(tree.node, walk, page)
}

/// The subtree of an internal node that a walk to a page goes to.
pub open spec fn subtree(tree: Arc<Tree>, page: u64) -> Arc<Tree> {
    tree.children@[passed(tree.node->Internal_entries@, page) as int]
}

/// A step into a well-formed tree never fails: it ends with what the tree says
/// of the page, or goes on to a subtree that says the same of it.
pub proof fn lemma_map_step(tree: Arc<Tree>, walk: MapWalk, page: u64)
    requires
        expected(*tree, walk),
    ensures
        match next_in(tree, walk, page) {
            Err(_) => false,
            Ok(MapStep::Found(entry)) => entry_of(tree.entries(), page) == Some(entry),
            Ok(MapStep::Unmapped) => entry_of(tree.entries(), page) is None,
            Ok(MapStep::Descend { reference, walk: next }) => {
                &&& tree.node is Internal
                &&& subtree(tree, page).reference == reference
                &&& expected(*subtree(tree, page), next)
                &&& next.height < walk.height
                &&& entry_of(subtree(tree, page).entries(), page) == entry_of(
                    tree.entries(),
                    page,
                )
            },
        },
{
    lemma_tree_ordered(tree);
    match tree.node {
        PageMapNode::Leaf { entries } => {},
        PageMapNode::Internal { level, entries } => {
            let below = (level - 1) as u32;
            let trees = tree.children@;
            lemma_forest_ordered(trees, below);
            lemma_passed(entries@, page);
            let at = passed(entries@, page) as int;
            assert(entries@.last() == entries@[trees.len() - 1]);
            assert(entries@[0].max_page == trees[0].max);
            lemma_forest_member(trees, below, 0);
            lemma_tree_ordered(trees[0]);
            if at >= trees.len() {
                assert(entries@[trees.len() - 1].max_page < page);
                lemma_above(entries_of(trees), page);
            } else {
                lemma_forest_split(trees, below, at);
                let front = trees.take(at);
                let rest = trees.skip(at);
                lemma_forest_split(rest, below, 1);
                let own = rest.take(1);
                let behind = rest.skip(1);
                lemma_forest_member(trees, below, at);
                lemma_tree_ordered(trees[at]);
                lemma_forest_ordered(front, below);
                lemma_forest_ordered(behind, below);
                assert(own[0] == trees[at]);
                assert(own.drop_last() =~= Seq::<Arc<Tree>>::empty());
                assert(entries_of(own.drop_last()) =~= Seq::<PageMapEntry>::empty());
                assert(entries_of(own) =~= trees[at].entries());
                if at > 0 {
                    assert(front.last() == trees[at - 1]);
                    assert(entries@[at - 1].max_page < page);
                    lemma_above(entries_of(front), page);
                    lemma_forest_member(trees, below, at - 1);
                } else {
                    assert(entries_of(front).len() == 0);
                }
                if behind.len() > 0 {
                    assert(behind[0] == trees[at + 1]);
                    assert(entries@[at].max_page == trees[at].max);
                    lemma_below(entries_of(behind), page);
                } else {
                    assert(entries_of(behind).len() == 0);
                }
                lemma_entry_join(entries_of(front), entries_of(rest), page);
                lemma_entry_join(entries_of(own), entries_of(behind), page);
                assert(trees[at].reference == entries@[at].child);
            }
        },
    }
}

/// No entry of a page above all entries.
proof fn lemma_above(entries: Seq<PageMapEntry>, page: u64)
    requires
        sorted(entries),
        entries.len() > 0 ==> entries.last().page_number < page,
    ensures
        entry_of(entries, page) is None,
{
    assert forall|i: int| 0 <= i < entries.len() implies (#[trigger] entries[i]).page_number
        != page by {
        assert(entries[i].page_number <= entries[entries.len() - 1].page_number);
    }
    lemma_entry_absent(entries, page);
}

/// No entry of a page below all entries.
proof fn lemma_below(entries: Seq<PageMapEntry>, page: u64)
    requires
        sorted(entries),
        entries.len() > 0 ==> page < entries[0].page_number,
    ensures
        entry_of(entries, page) is None,
{
    assert forall|i: int| 0 <= i < entries.len() implies (#[trigger] entries[i]).page_number
        != page by {
        assert(entries[0].page_number <= entries[i].page_number);
    }
    lemma_entry_absent(entries, page);
}

/// What a walk through a tree finds, taking one step at a time.
pub open spec fn walked(tree: Arc<Tree>, walk: MapWalk, page: u64) -> Result<
    Option<PageMapEntry>,
    ErrorView,
>
    decreases walk.height,
{
    match next_in(tree, walk, page) {
        Err(e) => Err(e),
        Ok(MapStep::Found(entry)) => Ok(Some(entry)),
        Ok(MapStep::Unmapped) => Ok(None),
        Ok(MapStep::Descend { walk: next, .. }) => if next.height < walk.height {
            walked(subtree(tree, page), next, page)
        } else {
            Ok(None)
        },
    }
}

/// A walk from the root of a well-formed page map finds exactly the entry that
/// the map has for the page, and nothing where it has none.
pub proof fn lemma_walk_finds(tree: Arc<Tree>, walk: MapWalk, page: u64)
    requires
        expected(*tree, walk),
    ensures
        walked(tree, walk, page) == Ok::<Option<PageMapEntry>, ErrorView>(
            entry_of(tree.entries(), page),
        ),
    decreases walk.height,
{
    lemma_map_step(tree, walk, page);
    match next_in(tree, walk, page) {
        Ok(MapStep::Descend { reference, walk: next }) => {
            lemma_walk_finds(subtree(tree, page), next, page);
        },
        _ => {},
    }
}

// ------------------------------------------------- the checkpoint index walk

/// What a walk through a checkpoint index knows of the node that it reads next.
#[derive(Clone, Copy, Debug)]
pub struct IndexWalk {
    pub height: u32,
    pub first: u64,
    pub count: u64,
}

#[derive(Debug)]
pub enum IndexStep {
    Digest(Sha256),
    Descend { reference: PageObjectReference, walk: IndexWalk },
}

/// The pages of an index node: its first page and how many follow.
pub open spec fn index_extent(node: CheckpointIndexNode) -> Option<(int, int)> {
    match node {
        CheckpointIndexNode::Leaf { first_page, hashes } => Some(
            (first_page as int, hashes@.len() as int),
        ),
        CheckpointIndexNode::Internal { entries, .. } => if entries@.len() == 0 {
            None
        } else {
            Some(
                (
                    entries@[0].first_page as int,
                    entries@.last().first_page + entries@.last().page_count
                        - entries@[0].first_page,
                ),
            )
        },
    }
}

pub open spec fn index_level(node: CheckpointIndexNode) -> u32 {
    match node {
        CheckpointIndexNode::Leaf { .. } => 0,
        CheckpointIndexNode::Internal { level, .. } => level,
    }
}

/// Whether a child indexes a page.
pub open spec fn covers(child: CheckpointIndexChild, page: u64) -> bool {
    child.first_page <= page && page - child.first_page < child.page_count
}

/// The first child that indexes a page.
pub open spec fn child_for(children: Seq<CheckpointIndexChild>, page: u64) -> Option<
    CheckpointIndexChild,
>
    decreases children.len(),
{
    if children.len() == 0 {
        None
    } else if covers(children[0], page) {
        Some(children[0])
    } else {
        child_for(children.skip(1), page)
    }
}

/// Where a walk to a page goes after an index node.
pub open spec fn index_next(node: CheckpointIndexNode, walk: IndexWalk, page: u64) -> Result<
    IndexStep,
    ErrorView,
> {
    if index_level(node) != walk.height || index_extent(node) != Some(
        (walk.first as int, walk.count as int),
    ) || (node is Internal && walk.height == 0) {
        Err(ErrorView::Corrupt("checkpoint index interval or height mismatch"@))
    } else {
        match node {
            CheckpointIndexNode::Leaf { first_page, hashes } => if first_page <= page && page
                - first_page < hashes@.len() {
                Ok(IndexStep::Digest(hashes@[page - first_page]))
            } else {
                Err(ErrorView::Corrupt("checkpoint hash missing"@))
            },
            CheckpointIndexNode::Internal { entries, .. } => match child_for(entries@, page) {
                None => Err(ErrorView::Corrupt("checkpoint index gap"@)),
                Some(child) => Ok(
                    IndexStep::Descend {
                        reference: child.child,
                        walk: IndexWalk {
                            height: (walk.height - 1) as u32,
                            first: child.first_page,
                            count: child.page_count,
                        },
                    },
                ),
            },
        }
    }
}

/// The walk that starts at the root of an index.
pub fn start_index(index: &CheckpointPageIndex, page: u64) -> (r: Result<IndexWalk, RuntimeError>)
    ensures
        match r {
            Ok(walk) => {
                &&& 0 < page <= index.page_count
                &&& walk == (IndexWalk {
                    height: index.root.height,
                    first: 1,
                    count: index.page_count,
                })
            },
            Err(e) => {
                &&& page == 0 || page > index.page_count
                &&& e@ == ErrorView::Corrupt("missing extended metadata page"@)
            },
        },
{
    if page == 0 || page > index.page_count {
        return Err(corrupt("missing extended metadata page"));
    }
    Ok(IndexWalk { height: index.root.height, first: 1, count: index.page_count })
}

fn find_child(children: &Vec<CheckpointIndexChild>, page: u64) -> (found: Option<
    CheckpointIndexChild,
>)
    ensures
        found == child_for(children@, page),
{
    let mut i: usize = 0;
    assert(children@.skip(0) =~= children@);
    while i < children.len()
        invariant
            i <= children@.len(),
            child_for(children@, page) == child_for(children@.skip(i as int), page),
        decreases children@.len() - i,
    {
        assert(children@.skip(i as int)[0] == children@[i as int]);
        assert(children@.skip(i as int).skip(1) =~= children@.skip(i + 1));
        if children[i].first_page <= page && page - children[i].first_page
            < children[i].page_count {
            return Some(children[i].clone());
        }
        i = i + 1;
    }
    None
}

/// Whether a node has the level and the pages that the walk promises.
fn index_fits(node: &CheckpointIndexNode, walk: &IndexWalk) -> (fits: bool)
    ensures
        fits == (index_level(*node) == walk.height && index_extent(*node) == Some(
            (walk.first as int, walk.count as int),
        )),
{
    match node {
        CheckpointIndexNode::Leaf { first_page, hashes } => walk.height == 0 && *first_page
            == walk.first && hashes.len() as u64 == walk.count,
        CheckpointIndexNode::Internal { level, entries } => {
            if entries.len() == 0 {
                return false;
            }
            let first: u64 = entries[0].first_page;
            let last = &entries[entries.len() - 1];
            let end: u128 = last.first_page as u128 + last.page_count as u128;
            *level == walk.height && first == walk.first && end == walk.first as u128
                + walk.count as u128
        },
    }
}

/// Takes one step of the walk to a page's digest.
pub fn index_step(node: &CheckpointIndexNode, walk: &IndexWalk, page: u64) -> (r: Result<
    IndexStep,
    RuntimeError,
>)
    ensures
        match r {
            Ok(step) => index_next(*node, *walk, page) == Ok::<IndexStep, ErrorView>(step),
            Err(e) => index_next(*node, *walk, page) == Err::<IndexStep, ErrorView>(e@),
        },
{
    if !index_fits(node, walk) {
        return Err(corrupt("checkpoint index interval or height mismatch"));
    }
    match node {
        CheckpointIndexNode::Leaf { first_page, hashes } => {
            if *first_page > page || page - *first_page >= hashes.len() as u64 {
                return Err(corrupt("checkpoint hash missing"));
            }
            Ok(IndexStep::Digest(hashes[(page - *first_page) as usize]))
        },
        CheckpointIndexNode::Internal { entries, .. } => {
            if walk.height == 0 {
                return Err(corrupt("checkpoint index interval or height mismatch"));
            }
            match find_child(entries, page) {
                None => Err(corrupt("checkpoint index gap")),
                Some(child) => Ok(
                    IndexStep::Descend {
                        reference: child.child,
                        walk: IndexWalk {
                            height: walk.height - 1,
                            first: child.first_page,
                            count: child.page_count,
                        },
                    },
                ),
            }
        },
    }
}

/// An object of the list encodes the node that the reference names.
pub open spec fn stored_node<C: CheckpointIndexCodec>(
    codec: C,
    artifacts: Seq<Artifact>,
    reference: PageObjectReference,
    node: CheckpointIndexNode,
) -> bool {
    exists|encoded: Vec<u8>|
        {
            &&& #[trigger] call_ensures(C::encode_index, (&codec, &node), Ok(encoded))
            &&& listed_as(artifacts, reference, encoded@)
        }
}

/// A walk through the stored nodes, from the one that is named, ends at the
/// given digest.
pub open spec fn leads_to<C: CheckpointIndexCodec>(
    codec: C,
    artifacts: Seq<Artifact>,
    reference: PageObjectReference,
    walk: IndexWalk,
    page: u64,
    digest: Seq<u8>,
) -> bool
    decreases walk.height,
{
    exists|node: CheckpointIndexNode|
        {
            &&& #[trigger] stored_node(codec, artifacts, reference, node)
            &&& match index_next(node, walk, page) {
                Err(_) => false,
                Ok(IndexStep::Digest(hash)) => hash@ == digest,
                Ok(IndexStep::Descend { reference: below, walk: next }) => {
                    &&& next.height < walk.height
                    &&& leads_to(codec, artifacts, below, next, page, digest)
                },
            }
        }
}

proof fn lemma_child_for(children: Seq<CheckpointIndexChild>, page: u64, j: int)
    requires
        0 <= j < children.len(),
        covers(children[j], page),
    ensures
        child_for(children, page) matches Some(child) && covers(child, page)
            && exists|i: int| 0 <= i < children.len() && #[trigger] children[i] == child,
    decreases children.len(),
{
    if covers(children[0], page) {
        assert(children[0] == children[0]);
    } else {
        let rest = children.skip(1);
        assert(rest[j - 1] == children[j]);
        lemma_child_for(rest, page, j - 1);
        let child = child_for(rest, page)->Some_0;
        let i = choose|i: int| 0 <= i < rest.len() && #[trigger] rest[i] == child;
        assert(children[i + 1] == child);
    }
}

/// The runs below an index node follow each other and make up its own run.
proof fn lemma_runs(level: nat, k: int, n: nat, m: int, page: int)
    requires
        level > 0,
        n > 0,
        k >= 0,
        m == (if CAPACITY * (k + 1) <= width((level - 1) as nat, n) {
            CAPACITY as int
        } else {
            width((level - 1) as nat, n) - CAPACITY * k
        }),
        k * span(level) < n,
        k * span(level) <= page < run_end(level, k, n),
    ensures
        m > 0,
        (CAPACITY * k) * span((level - 1) as nat) == k * span(level),
        run_end((level - 1) as nat, CAPACITY * k + m - 1, n) == run_end(level, k, n),
        ({
            let j = page / (span((level - 1) as nat) as int) - CAPACITY * k;
            &&& 0 <= j < m
            &&& (CAPACITY * k + j) * span((level - 1) as nat) <= page
            &&& page < run_end((level - 1) as nat, CAPACITY * k + j, n)
        }),
{
    let below = (level - 1) as nat;
    lemma_span(below);
    lemma_width(below, n);
    let s = span(below) as int;
    let w = width(below, n) as int;
    let c = 128 * k;
    assert(c * s == k * (128 * s)) by (nonlinear_arith)
        requires
            c == 128 * k,
    ;
    assert((c + 128) * s == (k + 1) * (128 * s)) by (nonlinear_arith)
        requires
            c == 128 * k,
    ;
    assert(c < w) by (nonlinear_arith)
        requires
            c * s < n,
            n <= w * s,
            s > 0,
    ;
    if w < c + 128 {
        assert(w * s <= (c + 128) * s) by (nonlinear_arith)
            requires
                w < c + 128,
                s > 0,
        ;
        assert(c + m == w);
        assert(run_end(below, w - 1, n) == n) by {
            assert((w - 1 + 1) * s == w * s);
        }
        assert(run_end(level, k, n) == n);
    } else {
        assert(c + m - 1 + 1 == c + 128);
    }
    let q = page / s;
    let j = q - c;
    assert(q * s <= page < (q + 1) * s) by (nonlinear_arith)
        requires
            q == page / s,
            s > 0,
    ;
    assert(q >= c) by (nonlinear_arith)
        requires
            c * s <= page,
            page < (q + 1) * s,
            s > 0,
    ;
    assert(q < c + m) by (nonlinear_arith)
        requires
            q * s <= page,
            page < (c + m) * s,
            s > 0,
    ;
}

/// A node that indexes a run of pages leads to the digest of each of them.
pub proof fn lemma_indexed_pages<C: CheckpointIndexCodec>(
    codec: C,
    artifacts: Seq<Artifact>,
    child: CheckpointIndexChild,
    walk: IndexWalk,
    k: int,
    bytes: Seq<u8>,
    page_size: int,
    page: u64,
)
    requires
        page_size > 0,
        k >= 0,
        indexes(codec, artifacts, child, walk.height as nat, k, bytes, page_size),
        walk.first == child.first_page,
        walk.count == child.page_count,
        covers(child, page),
    ensures
        leads_to(
            codec,
            artifacts,
            child.child,
            walk,
            page,
            sha256_of(bytes.subrange((page - 1) * page_size, (page - 1) * page_size + page_size)),
        ),
    decreases walk.height,
{
    let level = walk.height as nat;
    let n = (bytes.len() as int / page_size) as nat;
    let digest = sha256_of(
        bytes.subrange((page - 1) * page_size, (page - 1) * page_size + page_size),
    );
    lemma_span(level);
    let (node, encoded) = choose|node: CheckpointIndexNode, encoded: Vec<u8>|
        {
            &&& #[trigger] call_ensures(C::encode_index, (&codec, &node), Ok(encoded))
            &&& listed_as(artifacts, child.child, encoded@)
            &&& match node {
                CheckpointIndexNode::Leaf { first_page, hashes } => {
                    &&& level == 0
                    &&& first_page == child.first_page
                    &&& page_digests(
                        hashes@,
                        bytes,
                        page_size,
                        k * span(level),
                        child.page_count as int,
                    )
                },
                CheckpointIndexNode::Internal { level: own, entries } => {
                    &&& level > 0 && own == level
                    &&& entries@.len() == (if CAPACITY * (k + 1) <= width((level - 1) as nat, n) {
                        CAPACITY as int
                    } else {
                        width((level - 1) as nat, n) - CAPACITY * k
                    })
                    &&& forall|i: int|
                        0 <= i < entries@.len() ==> indexes(
                            codec,
                            artifacts,
                            #[trigger] entries@[i],
                            (level - 1) as nat,
                            CAPACITY * k + i,
                            bytes,
                            page_size,
                        )
                },
            }
        };
    assert(stored_node(codec, artifacts, child.child, node));
    match node {
        CheckpointIndexNode::Leaf { first_page, hashes } => {
            let i = page - first_page;
            assert(hashes@[i]@ == digest);
        },
        CheckpointIndexNode::Internal { level: own, entries } => {
            let m = entries@.len() as int;
            lemma_runs(level, k, n, m, page - 1);
            let below = (level - 1) as nat;
            let j = (page - 1) / (span(below) as int) - CAPACITY * k;
            assert(indexes(codec, artifacts, entries@[0], below, CAPACITY * k + 0, bytes, page_size));
            assert(indexes(
                codec,
                artifacts,
                entries@[m - 1],
                below,
                CAPACITY * k + (m - 1),
                bytes,
                page_size,
            ));
            assert(indexes(codec, artifacts, entries@[j], below, CAPACITY * k + j, bytes, page_size));
            lemma_child_for(entries@, page, j);
            let found = child_for(entries@, page)->Some_0;
            let i = choose|i: int| 0 <= i < entries@.len() && #[trigger] entries@[i] == found;
            let next = IndexWalk {
                height: (walk.height - 1) as u32,
                first: found.first_page,
                count: found.page_count,
            };
            lemma_indexed_pages(
                codec,
                artifacts,
                found,
                next,
                CAPACITY * k + i,
                bytes,
                page_size,
                page,
            );
        },
    }
}

/// The index that is built over a checkpoint leads from its root to the digest
/// of every page of the checkpoint.
pub proof fn lemma_index_finds<C: CheckpointIndexCodec>(
    codec: C,
    sha256: Sha256,
    length: u64,
    page_size: u32,
    bytes: Seq<u8>,
    index: CheckpointPageIndex,
    artifacts: Seq<Artifact>,
    page: u64,
)
    requires
        built(codec, sha256, length, page_size, bytes, index, artifacts),
        0 < page <= index.page_count,
    ensures
        exists|root: PageObjectReference|
            {
                &&& root@ == index.root.spec_reference()
                &&& #[trigger] leads_to(
                    codec,
                    artifacts,
                    root,
                    (IndexWalk { height: index.root.height, first: 1, count: index.page_count }),
                    page,
                    sha256_of(
                        bytes.subrange(
                            (page - 1) * page_size,
                            (page - 1) * page_size + page_size,
                        ),
                    ),
                )
            },
{
    let root = choose|root: CheckpointIndexChild| #[trigger]
        roots(codec, artifacts, root, index, bytes);
    let walk = IndexWalk { height: index.root.height, first: 1, count: index.page_count };
    assert(0 * span(index.root.height as nat) == 0);
    lemma_indexed_pages(codec, artifacts, root, walk, 0, bytes, page_size as int, page);
}

} // verus!

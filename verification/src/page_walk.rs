//! The read of a single page: through the page map to the pack that holds it, or
//! through the index of the checkpoint to the window around it.
use crate::authenticated::{
    expected, index_next, index_step, leads_to, lemma_map_step, map_next, map_step, start_index,
    start_map, stored_node, subtree, walked, IndexStep, IndexWalk, MapStep, MapWalk,
};
use crate::checkpoint_index::{CheckpointIndexCodec, CheckpointIndexNode, CheckpointPageIndex};
use crate::error::{corrupt, ErrorView, RuntimeError};
use crate::hash::{sha256_of, Sha256};
use crate::page_map::{Artifact, PageMapEntry, PageMapNode, PageMapRoot, PageObjectReference};
use crate::page_read::{
    check_mapped, checkpoint_page, checkpoint_window, decoded, listed_entry, mapped_page, promised,
    stored_range, window_of, AuthenticatedImage, PAGE_BYTES,
};
use crate::physical::{PackEntry, Tree};
use crate::resolve::map_agrees;
use crate::single_page::{
    index_start, map_start, mapping_of, page_in_window, read_alone, window_bytes,
};
use std::ops::Range;
use std::sync::Arc;
use vstd::prelude::*;

verus! {

/// Where the read of a page stands.
#[derive(Debug)]
pub enum PagePlace {
    /// In the page map, before a node.
    InMap(MapWalk),
    /// Before the index of the pack that holds the page.
    InPack(PageMapEntry),
    /// Before the stored bytes of the page.
    Stored(PageMapEntry),
    /// In the index of the checkpoint, before a node.
    InIndex(IndexWalk),
    /// Before the window of the checkpoint that starts here.
    InWindow { start: u64, hash: Sha256 },
}

/// What a read asks for.
#[derive(Debug)]
pub enum PageWant {
    MapNode(PageObjectReference),
    PackIndex(PageObjectReference),
    Stored(Range<u64>),
    IndexNode(PageObjectReference),
    Window(Range<u64>),
}

/// The read of a page.
#[derive(Debug)]
pub struct PageRead {
    pub page: u64,
    pub at: PagePlace,
}

/// The read of a page that no map replaces begins in the index.
pub open spec fn index_asked(
    page: u64,
    index: Option<CheckpointPageIndex>,
    r: Result<(PageRead, PageWant), RuntimeError>,
) -> bool {
    match index {
        None => r matches Err(e) && e@ == ErrorView::AuthenticatedRangesUnavailable,
        Some(index) => if 0 < page <= index.page_count {
            &&& r matches Ok((read, want))
            &&& read == (PageRead { page, at: PagePlace::InIndex(index_start(index)) })
            &&& want matches PageWant::IndexNode(reference) && reference@
                == index.root.spec_reference()
        } else {
            r matches Err(e) && e@ == ErrorView::Corrupt("missing extended metadata page"@)
        },
    }
}

fn ask_index(page: u64, index: &Option<CheckpointPageIndex>) -> (r: Result<
    (PageRead, PageWant),
    RuntimeError,
>)
    ensures
        index_asked(page, *index, r),
{
    match index {
        None => Err(RuntimeError::AuthenticatedRangesUnavailable),
        Some(index) => match start_index(index, page) {
            Err(e) => Err(e),
            Ok(walk) => Ok(
                (
                    PageRead { page, at: PagePlace::InIndex(walk) },
                    PageWant::IndexNode(index.root.reference()),
                ),
            ),
        },
    }
}

/// The page that was read, where its header fits the view.
pub open spec fn page_accepted(
    view: AuthenticatedImage,
    page: u64,
    read: Seq<u8>,
    r: Result<Vec<u8>, RuntimeError>,
) -> bool {
    if page == 1 && !view.header_ok(read) {
        r matches Err(e) && e@ == ErrorView::Corrupt("logical SQLite header mismatch"@)
    } else {
        r matches Ok(out) && out@ == read
    }
}

impl PageRead {
    /// The page is one of the view; a mapped page has the size of a page, and a
    /// window begins no later than the page.
    pub open spec fn wf(self, view: AuthenticatedImage) -> bool {
        &&& view.wf()
        &&& view.holds(self.page)
        &&& match self.at {
            PagePlace::InPack(entry) => entry.raw_length == PAGE_BYTES,
            PagePlace::Stored(entry) => entry.raw_length == PAGE_BYTES,
            PagePlace::InWindow { start, .. } => start <= (self.page - 1) * PAGE_BYTES <= u64::MAX,
            _ => true,
        }
    }

    pub open spec fn started(
        view: AuthenticatedImage,
        page: u64,
        output: usize,
        map: Option<PageMapRoot>,
        index: Option<CheckpointPageIndex>,
        r: Result<(PageRead, PageWant), RuntimeError>,
    ) -> bool {
        if !view.holds(page) || output > PAGE_BYTES {
            r matches Err(e) && e@ == ErrorView::Corrupt("metadata page request outside image"@)
        } else {
            match map {
                Some(root) => if view.base_only {
                    index_asked(page, index, r)
                } else {
                    &&& r matches Ok((read, want))
                    &&& read == (PageRead {
                        page,
                        at: PagePlace::InMap(map_start(root.height, view.page_count)),
                    })
                    &&& want matches PageWant::MapNode(reference) && reference@
                        == root.spec_reference()
                },
                None => index_asked(page, index, r),
            }
        }
    }

    /// Begins the read of a page of a view, of which so many bytes are wanted. `map`
    /// and `index` are the roots that the generation names.
    pub fn begin(
        view: &AuthenticatedImage,
        page: u64,
        output: usize,
        map: &Option<PageMapRoot>,
        index: &Option<CheckpointPageIndex>,
    ) -> (r: Result<(PageRead, PageWant), RuntimeError>)
        requires
            view.wf(),
        ensures
            Self::started(*view, page, output, *map, *index, r),
            r matches Ok((read, _)) ==> read.wf(*view),
    {
        match view.check_request(page, output) {
            Err(e) => {
                return Err(e);
            },
            Ok(()) => {},
        }
        if !view.base_only {
            if let Some(root) = map {
                let walk = start_map(root, view.page_count);
                return Ok(
                    (
                        PageRead { page, at: PagePlace::InMap(walk) },
                        PageWant::MapNode(root.reference()),
                    ),
                );
            }
        }
        ask_index(page, index)
    }

    pub open spec fn after_map_node(
        self,
        node: PageMapNode,
        index: Option<CheckpointPageIndex>,
        r: Result<(PageRead, PageWant), RuntimeError>,
    ) -> bool {
        match map_next(node, self.at->InMap_0, self.page) {
            Err(refusal) => r matches Err(e) && e@ == refusal,
            Ok(MapStep::Found(entry)) => if entry.raw_length == PAGE_BYTES {
                &&& r matches Ok((read, want))
                &&& read == (PageRead { page: self.page, at: PagePlace::InPack(entry) })
                &&& want == PageWant::PackIndex(entry.pack)
            } else {
                r matches Err(e) && e@ == ErrorView::Corrupt("incorrect mapped page size"@)
            },
            Ok(MapStep::Unmapped) => index_asked(self.page, index, r),
            Ok(MapStep::Descend { reference, walk }) => {
                &&& r matches Ok((read, want))
                &&& read == (PageRead { page: self.page, at: PagePlace::InMap(walk) })
                &&& want == PageWant::MapNode(reference)
            },
        }
    }

    /// Takes the node of the page map that was asked for.
    pub fn take_map_node(
        self,
        view: &AuthenticatedImage,
        node: &PageMapNode,
        index: &Option<CheckpointPageIndex>,
    ) -> (r: Result<(PageRead, PageWant), RuntimeError>)
        requires
            self.wf(*view),
            self.at is InMap,
        ensures
            self.after_map_node(*node, *index, r),
            r matches Ok((read, _)) ==> read.wf(*view) && read.page == self.page,
    {
        let page: u64 = self.page;
        match self.at {
            PagePlace::InMap(walk) => match map_step(node, &walk, page) {
                Err(e) => Err(e),
                Ok(MapStep::Found(entry)) => match check_mapped(&entry) {
                    Err(e) => Err(e),
                    Ok(()) => {
                        let pack = entry.pack.clone();
                        Ok((PageRead { page, at: PagePlace::InPack(entry) }, PageWant::PackIndex(pack)))
                    },
                },
                Ok(MapStep::Unmapped) => ask_index(page, index),
                Ok(MapStep::Descend { reference, walk }) => Ok(
                    (PageRead { page, at: PagePlace::InMap(walk) }, PageWant::MapNode(reference)),
                ),
            },
            _ => ask_index(page, index),
        }
    }

    pub open spec fn after_pack_index(
        self,
        entries: Seq<PackEntry>,
        r: Result<(PageRead, PageWant), RuntimeError>,
    ) -> bool {
        let entry = self.at->InPack_0;
        match listed_entry(entries, self.page) {
            None => r matches Err(e) && e@ == ErrorView::Corrupt(
                "mapped page absent from pack index"@,
            ),
            Some(listed) => if !map_agrees(entry, listed) {
                r matches Err(e) && e@ == ErrorView::Corrupt("page map and pack index disagree"@)
            } else if entry.offset + entry.stored_length > u64::MAX {
                r matches Err(e) && e@ == ErrorView::Corrupt(
                    "stored page exceeds the address range"@,
                )
            } else {
                &&& r matches Ok((read, want))
                &&& read == (PageRead { page: self.page, at: PagePlace::Stored(entry) })
                &&& want matches PageWant::Stored(range) && range.start == entry.offset
                    && range.end == entry.offset + entry.stored_length
            },
        }
    }

    /// Takes the index of the pack that holds the page.
    pub fn take_pack_index(self, view: &AuthenticatedImage, entries: &Vec<PackEntry>) -> (r: Result<
        (PageRead, PageWant),
        RuntimeError,
    >)
        requires
            self.wf(*view),
            self.at is InPack,
        ensures
            self.after_pack_index(entries@, r),
            r matches Ok((read, _)) ==> read.wf(*view) && read.page == self.page,
    {
        let page: u64 = self.page;
        match self.at {
            PagePlace::InPack(entry) => match stored_range(&entry, entries, page) {
                Err(e) => Err(e),
                Ok(range) => Ok(
                    (PageRead { page, at: PagePlace::Stored(entry) }, PageWant::Stored(range)),
                ),
            },
            _ => Err(corrupt("mapped page absent from pack index")),
        }
    }

    pub open spec fn after_stored(
        self,
        view: AuthenticatedImage,
        stored: Seq<u8>,
        r: Result<Vec<u8>, RuntimeError>,
    ) -> bool {
        let entry = self.at->Stored_0;
        match decoded(entry.codec, stored) {
            None => r matches Err(e) && e@ == ErrorView::Corrupt(
                "invalid or oversized compressed metadata page"@,
            ),
            Some(read) => if promised(entry, read) {
                page_accepted(view, self.page, read, r)
            } else {
                r matches Err(e) && (e@ == ErrorView::Corrupt(
                    "metadata page hash or decoded length mismatch"@,
                ) || (entry.codec is Zstd && read.len() > PAGE_BYTES && e@ == ErrorView::Corrupt(
                    "invalid or oversized compressed metadata page"@,
                )))
            },
        }
    }

    /// Takes the stored bytes of the page, and gives the page.
    pub fn take_stored(self, view: &AuthenticatedImage, stored: &[u8]) -> (r: Result<
        Vec<u8>,
        RuntimeError,
    >)
        requires
            self.wf(*view),
            self.at is Stored,
        ensures
            self.after_stored(*view, stored@, r),
    {
        match &self.at {
            PagePlace::Stored(entry) => {
                let read = match mapped_page(entry, stored) {
                    Err(e) => {
                        return Err(e);
                    },
                    Ok(read) => read,
                };
                match view.check_header(self.page, read.as_slice()) {
                    Err(e) => Err(e),
                    Ok(()) => Ok(read),
                }
            },
            _ => Err(corrupt("invalid or oversized compressed metadata page")),
        }
    }

    pub open spec fn after_index_node(
        self,
        view: AuthenticatedImage,
        window: u64,
        node: CheckpointIndexNode,
        r: Result<(PageRead, PageWant), RuntimeError>,
    ) -> bool {
        let length = view.checkpoint.length;
        match index_next(node, self.at->InIndex_0, self.page) {
            Err(refusal) => r matches Err(e) && e@ == refusal,
            Ok(IndexStep::Digest(hash)) => if self.page > length / PAGE_BYTES {
                r matches Err(e) && e@ == ErrorView::Corrupt("missing extended metadata page"@)
            } else {
                &&& r matches Ok((read, want))
                &&& read.page == self.page
                &&& read.at matches PagePlace::InWindow { start, hash: h } && h == hash && start
                    == window_of(self.page, window, length).0
                &&& want matches PageWant::Window(range) && (range.start as int, range.end as int)
                    == window_of(self.page, window, length)
            },
            Ok(IndexStep::Descend { reference, walk }) => {
                &&& r matches Ok((read, want))
                &&& read == (PageRead { page: self.page, at: PagePlace::InIndex(walk) })
                &&& want == PageWant::IndexNode(reference)
            },
        }
    }

    /// Takes the node of the checkpoint's index that was asked for. The checkpoint is
    /// read in windows of the given size.
    pub fn take_index_node(
        self,
        view: &AuthenticatedImage,
        window: u64,
        node: &CheckpointIndexNode,
    ) -> (r: Result<(PageRead, PageWant), RuntimeError>)
        requires
            self.wf(*view),
            self.at is InIndex,
            window > 0,
        ensures
            self.after_index_node(*view, window, *node, r),
            r matches Ok((read, _)) ==> read.wf(*view) && read.page == self.page,
    {
        let page: u64 = self.page;
        match self.at {
            PagePlace::InIndex(walk) => match index_step(node, &walk, page) {
                Err(e) => Err(e),
                Ok(IndexStep::Digest(hash)) => {
                    let length: u64 = view.checkpoint.length;
                    if page > length / PAGE_BYTES {
                        return Err(corrupt("missing extended metadata page"));
                    }
                    let range = checkpoint_window(page, window, length);
                    let at = PagePlace::InWindow { start: range.start, hash };
                    Ok((PageRead { page, at }, PageWant::Window(range)))
                },
                Ok(IndexStep::Descend { reference, walk }) => Ok(
                    (PageRead { page, at: PagePlace::InIndex(walk) }, PageWant::IndexNode(reference)),
                ),
            },
            _ => Err(corrupt("missing extended metadata page")),
        }
    }

    pub open spec fn after_window(
        self,
        view: AuthenticatedImage,
        bytes: Seq<u8>,
        r: Result<Vec<u8>, RuntimeError>,
    ) -> bool {
        let at = (self.page - 1) * PAGE_BYTES - self.at->start;
        let read = bytes.subrange(at, at + PAGE_BYTES);
        if at + PAGE_BYTES > bytes.len() {
            r matches Err(e) && e@ == ErrorView::Corrupt("short checkpoint window"@)
        } else if sha256_of(read) != self.at->hash@ {
            r matches Err(e) && e@ == ErrorView::Corrupt("checkpoint page hash mismatch"@)
        } else {
            page_accepted(view, self.page, read, r)
        }
    }

    /// Takes the window of the checkpoint that was asked for, and gives the page.
    pub fn take_window(self, view: &AuthenticatedImage, bytes: &[u8]) -> (r: Result<
        Vec<u8>,
        RuntimeError,
    >)
        requires
            self.wf(*view),
            self.at is InWindow,
        ensures
            self.after_window(*view, bytes@, r),
    {
        match &self.at {
            PagePlace::InWindow { start, hash } => {
                let read = match checkpoint_page(self.page, *start, bytes, hash) {
                    Err(e) => {
                        return Err(e);
                    },
                    Ok(read) => read,
                };
                match view.check_header(self.page, read.as_slice()) {
                    Err(e) => Err(e),
                    Ok(()) => Ok(read),
                }
            },
            _ => Err(corrupt("short checkpoint window")),
        }
    }
}

// ------------------------------------------------- against the whole image

/// A read stands before the node of a part of the page map that says of the page
/// what the whole map says.
pub open spec fn in_map(
    view: AuthenticatedImage,
    tree: Option<&Arc<Tree>>,
    part: Arc<Tree>,
    read: PageRead,
) -> bool {
    &&& read.at matches PagePlace::InMap(walk)
    &&& expected(*part, walk)
    &&& walked(part, walk, read.page) == mapping_of(view, tree, read.page)
}

/// The read through a page map finds what the map says of the page: a step that is
/// given the node of the part where the read stands goes on to a smaller part, to
/// the page's entry, or, where the map has none, to the checkpoint.
pub proof fn lemma_read_follows_the_map(
    view: AuthenticatedImage,
    tree: Option<&Arc<Tree>>,
    part: Arc<Tree>,
    index: Option<CheckpointPageIndex>,
    read: PageRead,
    r: Result<(PageRead, PageWant), RuntimeError>,
)
    requires
        in_map(view, tree, part, read),
        read.after_map_node(part.node, index, r),
    ensures
        r matches Ok((next, want)) ==> next.page == read.page && match next.at {
            PagePlace::InMap(_) => {
                &&& in_map(view, tree, subtree(part, read.page), next)
                &&& want == PageWant::MapNode(subtree(part, read.page).reference)
            },
            PagePlace::InPack(entry) => mapping_of(view, tree, read.page) == Ok::<
                Option<PageMapEntry>,
                ErrorView,
            >(Some(entry)),
            PagePlace::InIndex(_) => mapping_of(view, tree, read.page) == Ok::<
                Option<PageMapEntry>,
                ErrorView,
            >(None),
            _ => false,
        },
{
    lemma_map_step(part, read.at->InMap_0, read.page);
}

/// The index leads to a digest for the page.
pub open spec fn index_leads<C: CheckpointIndexCodec>(
    codec: C,
    index: CheckpointPageIndex,
    nodes: Seq<Artifact>,
    page: u64,
    digest: Seq<u8>,
) -> bool {
    exists|root: PageObjectReference|
        {
            &&& root@ == index.root.spec_reference()
            &&& #[trigger] leads_to(codec, nodes, root, index_start(index), page, digest)
        }
}

/// A read stands before a node of the index from which the walk ends where it ends
/// from the root.
pub open spec fn in_index<C: CheckpointIndexCodec>(
    codec: C,
    index: CheckpointPageIndex,
    nodes: Seq<Artifact>,
    reference: PageObjectReference,
    read: PageRead,
) -> bool {
    &&& read.at matches PagePlace::InIndex(walk)
    &&& forall|digest: Seq<u8>| #[trigger]
        leads_to(codec, nodes, reference, walk, read.page, digest) ==> index_leads(
            codec,
            index,
            nodes,
            read.page,
            digest,
        )
}

/// A read that has just come to the index stands so.
pub proof fn lemma_read_enters_the_index<C: CheckpointIndexCodec>(
    codec: C,
    index: CheckpointPageIndex,
    nodes: Seq<Artifact>,
    page: u64,
    r: Result<(PageRead, PageWant), RuntimeError>,
)
    requires
        index_asked(page, Some(index), r),
    ensures
        r matches Ok((read, want)) ==> want matches PageWant::IndexNode(reference) && in_index(
            codec,
            index,
            nodes,
            reference,
            read,
        ),
{
    if let Ok((read, PageWant::IndexNode(reference))) = r {
        assert forall|digest: Seq<u8>| #[trigger]
            leads_to(codec, nodes, reference, index_start(index), page, digest) implies index_leads(
            codec,
            index,
            nodes,
            page,
            digest,
        ) by {}
    }
}

/// The read through the index ends at the digest that the index leads to: a step
/// that is given the stored node goes on to a node below, or to that digest.
pub proof fn lemma_read_follows_the_index<C: CheckpointIndexCodec>(
    codec: C,
    index: CheckpointPageIndex,
    nodes: Seq<Artifact>,
    reference: PageObjectReference,
    node: CheckpointIndexNode,
    view: AuthenticatedImage,
    window: u64,
    read: PageRead,
    r: Result<(PageRead, PageWant), RuntimeError>,
)
    requires
        in_index(codec, index, nodes, reference, read),
        stored_node(codec, nodes, reference, node),
        read.after_index_node(view, window, node, r),
    ensures
        r matches Ok((next, want)) ==> next.page == read.page && match next.at {
            PagePlace::InIndex(_) => want matches PageWant::IndexNode(below) && in_index(
                codec,
                index,
                nodes,
                below,
                next,
            ),
            PagePlace::InWindow { hash, .. } => index_leads(
                codec,
                index,
                nodes,
                read.page,
                hash@,
            ),
            _ => false,
        },
{
    let walk = read.at->InIndex_0;
    let page = read.page;
    match index_next(node, walk, page) {
        Ok(IndexStep::Digest(hash)) => {
            assert(leads_to(codec, nodes, reference, walk, page, hash@));
        },
        Ok(IndexStep::Descend { reference: below, walk: next }) => {
            assert forall|digest: Seq<u8>| #[trigger]
                leads_to(codec, nodes, below, next, page, digest) implies index_leads(
                codec,
                index,
                nodes,
                page,
                digest,
            ) by {
                assert(leads_to(codec, nodes, reference, walk, page, digest));
            }
        },
        Err(_) => {},
    }
}

/// A mapped page that a read gives was read alone.
pub proof fn lemma_stored_page_was_read_alone<C: CheckpointIndexCodec>(
    codec: C,
    view: AuthenticatedImage,
    tree: Option<&Arc<Tree>>,
    index: CheckpointPageIndex,
    nodes: Seq<Artifact>,
    checkpoint: Seq<u8>,
    window: u64,
    read: PageRead,
    entry: PageMapEntry,
    stored: Seq<u8>,
    out: Vec<u8>,
)
    requires
        read.wf(view),
        read.at == PagePlace::Stored(entry),
        mapping_of(view, tree, read.page) == Ok::<Option<PageMapEntry>, ErrorView>(Some(entry)),
        read.after_stored(view, stored, Ok(out)),
    ensures
        read_alone(
            codec,
            view,
            tree,
            index,
            nodes,
            checkpoint,
            window,
            read.page,
            PAGE_BYTES as usize,
            out@,
        ),
{
    assert(decoded(entry.codec, stored) == Some(out@));
}

/// A page of the checkpoint that a read gives was read alone.
pub proof fn lemma_checkpoint_page_was_read_alone<C: CheckpointIndexCodec>(
    codec: C,
    view: AuthenticatedImage,
    tree: Option<&Arc<Tree>>,
    index: CheckpointPageIndex,
    nodes: Seq<Artifact>,
    checkpoint: Seq<u8>,
    window: u64,
    read: PageRead,
    out: Vec<u8>,
)
    requires
        read.wf(view),
        read.at matches PagePlace::InWindow { start, hash } && start == window_of(
            read.page,
            window,
            checkpoint.len() as u64,
        ).0 && index_leads(codec, index, nodes, read.page, hash@),
        checkpoint.len() <= u64::MAX,
        read.page * PAGE_BYTES <= checkpoint.len(),
        mapping_of(view, tree, read.page) == Ok::<Option<PageMapEntry>, ErrorView>(None),
        read.after_window(view, window_bytes(checkpoint, read.page, window), Ok(out)),
    ensures
        read_alone(
            codec,
            view,
            tree,
            index,
            nodes,
            checkpoint,
            window,
            read.page,
            PAGE_BYTES as usize,
            out@,
        ),
{
    assert(out@ == page_in_window(checkpoint, read.page, window));
}

} // verus!

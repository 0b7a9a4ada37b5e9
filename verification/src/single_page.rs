//! A page that is read alone, held against the same page of the image that is
//! assembled as a whole.
use crate::authenticated::{
    expected, leads_to, lemma_index_finds, lemma_walk_finds, walked, IndexWalk, MapWalk,
};
use crate::checkpoint_index::{built, CheckpointIndexCodec, CheckpointPageIndex};
use crate::error::ErrorView;
use crate::hash::{sha256_of, Sha256};
use crate::page_map::{Artifact, PageMapEntry, PageObjectReference};
use crate::page_read::{
    decoded, lemma_checkpoint_page_is_the_images, lemma_mapped_page_is_the_images, promised,
    window_of, AuthenticatedImage, PAGE_BYTES,
};
use crate::physical::Tree;
use crate::resolve::{assembled, map_entries, page_at};
use std::sync::Arc;
use vstd::prelude::*;

verus! {

/// The walk that starts at the root of a page map of this height, over so many
/// pages.
pub open spec fn map_start(height: u32, pages: u64) -> MapWalk {
    MapWalk { height, lower: 0, upper: pages, is_root: true }
}

/// The walk that starts at the root of a checkpoint index.
pub open spec fn index_start(index: CheckpointPageIndex) -> IndexWalk {
    IndexWalk { height: index.root.height, first: 1, count: index.page_count }
}

/// What the map of an image says of a page, found by the walk through its nodes. A
/// view of the checkpoint alone asks no map.
pub open spec fn mapping_of(
    view: AuthenticatedImage,
    tree: Option<&Arc<Tree>>,
    page: u64,
) -> Result<Option<PageMapEntry>, ErrorView> {
    match tree {
        Some(tree) => if view.base_only {
            Ok(None)
        } else {
            walked(*tree, map_start(tree.level(), view.page_count), page)
        },
        None => Ok(None),
    }
}

/// The bytes of the window around a page of a checkpoint.
pub open spec fn window_bytes(checkpoint: Seq<u8>, page: u64, window: u64) -> Seq<u8> {
    let (start, end) = window_of(page, window, checkpoint.len() as u64);
    checkpoint.subrange(start, end)
}

/// The page that a window holds at its place.
pub open spec fn page_in_window(checkpoint: Seq<u8>, page: u64, window: u64) -> Seq<u8> {
    let at = (page - 1) * PAGE_BYTES - window_of(page, window, checkpoint.len() as u64).0;
    window_bytes(checkpoint, page, window).subrange(at, at + PAGE_BYTES)
}

/// A page was read alone: a mapped one out of the stored bytes that its entry
/// names, checked against the digest of the entry; any other out of the window of
/// the checkpoint around it, checked against the digest that the walk through the
/// index leads to.
pub open spec fn read_alone<C: CheckpointIndexCodec>(
    codec: C,
    view: AuthenticatedImage,
    tree: Option<&Arc<Tree>>,
    index: CheckpointPageIndex,
    nodes: Seq<Artifact>,
    checkpoint: Seq<u8>,
    window: u64,
    page: u64,
    output: usize,
    read: Seq<u8>,
) -> bool {
    &&& view.holds(page)
    &&& output <= PAGE_BYTES
    &&& page == 1 ==> view.header_ok(read)
    &&& match mapping_of(view, tree, page) {
        Err(_) => false,
        Ok(Some(entry)) => exists|stored: Seq<u8>|
            #[trigger] decoded(entry.codec, stored) == Some(read) && promised(entry, read),
        Ok(None) => {
            &&& page * PAGE_BYTES <= checkpoint.len()
            &&& read == page_in_window(checkpoint, page, window)
            &&& exists|root: PageObjectReference|
                {
                    &&& root@ == index.root.spec_reference()
                    &&& #[trigger] leads_to(
                        codec,
                        nodes,
                        root,
                        index_start(index),
                        page,
                        sha256_of(read),
                    )
                }
        },
    }
}

/// A view of an image as it is assembled: of all its pages, mapped over the
/// checkpoint, or of the checkpoint alone.
pub open spec fn whole(
    view: AuthenticatedImage,
    tree: Option<&Arc<Tree>>,
    checkpoint: Seq<u8>,
    image: Seq<u8>,
) -> bool {
    if view.base_only {
        image == checkpoint && view.checkpoint.length == checkpoint.len()
    } else {
        &&& assembled(image, checkpoint, map_entries(tree), PAGE_BYTES as int)
        &&& image.len() == view.page_count * PAGE_BYTES
    }
}

/// A window holds the page that it was read for, wherever windows begin.
proof fn lemma_window(checkpoint: Seq<u8>, page: u64, window: u64)
    requires
        window > 0,
        window % PAGE_BYTES == 0,
        page > 0,
        page * PAGE_BYTES <= checkpoint.len() <= u64::MAX,
    ensures
        ({
            let (start, end) = window_of(page, window, checkpoint.len() as u64);
            &&& 0 <= start <= (page - 1) * PAGE_BYTES
            &&& page * PAGE_BYTES <= end <= checkpoint.len()
        }),
        page_in_window(checkpoint, page, window) == page_at(
            checkpoint,
            PAGE_BYTES as int,
            page as int,
        ),
{
    let from = (page - 1) * 4096;
    let w = window as int;
    let at = from / w;
    let start = at * w;
    let k = w / 4096;
    assert(start <= from && from + 4096 <= start + w) by (nonlinear_arith)
        requires
            at == from / w,
            start == at * w,
            w > 0,
            w == 4096 * k,
            from == (page - 1) * 4096,
    {
        assert(from - start == from % w);
        assert(0 <= from % w < w);
        assert(from - start == 4096 * ((page - 1) - at * k));
        assert(4096 * ((page - 1) - at * k) < 4096 * k);
        assert((page - 1) - at * k < k);
        assert((page - 1) - at * k + 1 <= k);
    };
    assert(start >= 0) by (nonlinear_arith)
        requires
            at == from / w,
            start == at * w,
            w > 0,
            from >= 0,
    ;
    assert(page_in_window(checkpoint, page, window) =~= page_at(
        checkpoint,
        4096,
        page as int,
    ));
}

/// A page that is read alone is the page of the whole image: a page of the
/// checkpoint byte for byte, a mapped one by its length and digest. The walks
/// through map and index, the checks on what they lead to and the assembly of the
/// whole agree on every page.
pub proof fn lemma_page_read_alone_is_the_images<C: CheckpointIndexCodec>(
    codec: C,
    view: AuthenticatedImage,
    tree: Option<&Arc<Tree>>,
    index: CheckpointPageIndex,
    nodes: Seq<Artifact>,
    checkpoint: Seq<u8>,
    window: u64,
    page: u64,
    output: usize,
    read: Seq<u8>,
    image: Seq<u8>,
)
    requires
        view.wf(),
        whole(view, tree, checkpoint, image),
        tree matches Some(tree) ==> expected(**tree, map_start(tree.level(), view.page_count)),
        checkpoint.len() <= u64::MAX,
        window > 0,
        window % PAGE_BYTES == 0,
        read_alone(codec, view, tree, index, nodes, checkpoint, window, page, output, read),
    ensures
        read.len() == PAGE_BYTES,
        sha256_of(read) == sha256_of(page_at(image, PAGE_BYTES as int, page as int)),
        mapping_of(view, tree, page) == Ok::<Option<PageMapEntry>, ErrorView>(None) ==> read
            == page_at(image, PAGE_BYTES as int, page as int),
{
    if let Some(tree) = tree {
        lemma_walk_finds(*tree, map_start(tree.level(), view.page_count), page);
    }
    match mapping_of(view, tree, page) {
        Ok(Some(entry)) => {
            lemma_mapped_page_is_the_images(
                image,
                checkpoint,
                map_entries(tree),
                page,
                entry,
                read,
            );
        },
        Ok(None) => {
            lemma_window(checkpoint, page, window);
            if !view.base_only {
                let (start, _) = window_of(page, window, checkpoint.len() as u64);
                let bytes = window_bytes(checkpoint, page, window);
                lemma_checkpoint_page_is_the_images(
                    image,
                    checkpoint,
                    map_entries(tree),
                    page,
                    start,
                    bytes,
                    read,
                );
            }
        },
        Err(_) => {},
    }
}

/// Every page of a checkpoint that no map replaces can be read alone: the index
/// that was built over the checkpoint leads to the digest of the bytes that the
/// window around the page holds.
pub proof fn lemma_checkpoint_page_can_be_read<C: CheckpointIndexCodec>(
    codec: C,
    sha256: Sha256,
    length: u64,
    index: CheckpointPageIndex,
    nodes: Seq<Artifact>,
    view: AuthenticatedImage,
    tree: Option<&Arc<Tree>>,
    checkpoint: Seq<u8>,
    window: u64,
    page: u64,
    output: usize,
)
    requires
        built(codec, sha256, length, PAGE_BYTES as u32, checkpoint, index, nodes),
        view.holds(page),
        output <= PAGE_BYTES,
        0 < page <= index.page_count,
        page * PAGE_BYTES <= checkpoint.len() <= u64::MAX,
        mapping_of(view, tree, page) == Ok::<Option<PageMapEntry>, ErrorView>(None),
        page == 1 ==> view.header_ok(page_at(checkpoint, PAGE_BYTES as int, 1)),
        window > 0,
        window % PAGE_BYTES == 0,
    ensures
        read_alone(
            codec,
            view,
            tree,
            index,
            nodes,
            checkpoint,
            window,
            page,
            output,
            page_at(checkpoint, PAGE_BYTES as int, page as int),
        ),
{
    lemma_window(checkpoint, page, window);
    lemma_index_finds(codec, sha256, length, 4096, checkpoint, index, nodes, page);
    let read = page_at(checkpoint, 4096, page as int);
    let slice = checkpoint.subrange((page - 1) * 4096, (page - 1) * 4096 + 4096);
    assert(read =~= slice);
    let root = choose|root: PageObjectReference|
        {
            &&& root@ == index.root.spec_reference()
            &&& #[trigger] leads_to(
                codec,
                nodes,
                root,
                (IndexWalk { height: index.root.height, first: 1, count: index.page_count }),
                page,
                sha256_of(slice),
            )
        };
    assert(leads_to(codec, nodes, root, index_start(index), page, sha256_of(read)));
}

} // verus!

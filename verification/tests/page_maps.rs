//! Page maps: building, updating, walking and loading them.
use otmp::authenticated::{
    index_step, map_step, start_index, start_map, IndexStep, IndexWalk, MapStep, MapWalk,
};
use otmp::checkpoint_index::{
    build, CheckpointIndexCodec, CheckpointIndexNode, CheckpointPageIndex,
};
use otmp::error::{ProtocolError, RuntimeError};
use otmp::hash::Sha256;
use otmp::page_map::{
    Artifacts, PageCodec, PageMapEntry, PageMapNode, PageMapRoot, PageObjectReference,
};
use otmp::physical::{
    grow, internal_nodes, leaf_nodes, persist, update, ChangedPage, PackEntry, PageMapCodec,
    PagePackCodec, Tree,
};
use otmp::resolve::{flatten, load_tree, LoadStop, NodeTable};
use std::collections::BTreeMap;
use std::sync::Arc;

const MAXIMUM: usize = 1024 * 1024;

/// A plain text format with the size limit of the real one.
struct Codec;

fn reference_text(reference: &PageObjectReference) -> String {
    format!("{} {} {}", reference.uri, reference.sha256.to_text(), reference.length)
}

impl PageMapCodec for Codec {
    fn validate(&self, _: &PageMapNode) -> Result<(), RuntimeError> {
        Ok(())
    }

    fn encode(&self, node: &PageMapNode) -> Result<Vec<u8>, RuntimeError> {
        let mut text = String::new();
        match node {
            PageMapNode::Leaf { entries } => {
                for e in entries {
                    text.push_str(&format!(
                        "{} {} {} {} {}\n",
                        e.page_number,
                        reference_text(&e.pack),
                        e.offset,
                        e.stored_length,
                        e.page_sha256.to_text()
                    ));
                }
            }
            PageMapNode::Internal { level, entries } => {
                text.push_str(&format!("{level}\n"));
                for e in entries {
                    text.push_str(&format!("{} {}\n", e.max_page, reference_text(&e.child)));
                }
            }
        }
        if text.len() > MAXIMUM {
            return Err(RuntimeError::Protocol(ProtocolError {
                code: "OTMP_LIMIT".into(),
                message: "page map node is too large".into(),
            }));
        }
        Ok(text.into_bytes())
    }
}

impl PagePackCodec for Codec {
    fn pack(
        &self,
        page_size: u32,
        pages: &[ChangedPage],
    ) -> Result<(Vec<u8>, Vec<PackEntry>), RuntimeError> {
        let mut bytes = vec![0; 64];
        let mut index = Vec::new();
        for page in pages {
            index.push(PackEntry {
                page_number: page.number,
                offset: bytes.len() as u64,
                stored_length: page.bytes.len() as u32,
                raw_length: page_size,
                codec: PageCodec::Plain,
                page_sha256: Sha256::digest(&page.bytes),
            });
            bytes.extend_from_slice(&page.bytes);
        }
        Ok((bytes, index))
    }
}

impl CheckpointIndexCodec for Codec {
    fn encode_index(&self, node: &CheckpointIndexNode) -> Result<Vec<u8>, RuntimeError> {
        Ok(format!("{node:?}").into_bytes())
    }
}

fn entry(page_number: u64) -> PageMapEntry {
    PageMapEntry {
        page_number,
        pack: PageObjectReference {
            uri: "pack".into(),
            length: 4096,
            sha256: Sha256::from_bytes([0; 32]),
        },
        offset: 0,
        stored_length: 4096,
        raw_length: 4096,
        codec: PageCodec::Plain,
        page_sha256: Sha256::from_bytes([0; 32]),
    }
}

fn tree(count: u64) -> Arc<Tree> {
    let mut artifacts = Artifacts::new();
    let mut roots = leaf_nodes(&Codec, (1..=count).map(entry).collect(), &mut artifacts).unwrap();
    while roots.len() > 1 {
        let level = roots[0].node.level() + 1;
        roots = internal_nodes(&Codec, roots, level, &mut artifacts).unwrap();
    }
    roots.pop().unwrap()
}

#[test]
fn multilevel_updates_reuse_untouched_subtrees_and_prune_eof() {
    let parent = tree(20_000);
    assert_eq!(parent.node.level(), 2);
    let pages = flatten(&parent);
    let mut changed = pages[0].clone();
    changed.page_sha256 = Sha256::from_bytes([1; 32]);
    let mut artifacts = Artifacts::new();
    let roots = update(&Codec, &parent, &[changed], 20_000, &mut artifacts).unwrap();
    assert_eq!(roots.len(), 1);
    assert!(Arc::ptr_eq(&parent.children[1], &roots[0].children[1]));
    assert_eq!(artifacts.len(), 3, "one copied node at each level");
    let roots = update(&Codec, &roots[0], &[], 10_001, &mut artifacts).unwrap();
    let pages = flatten(&roots[0]);
    assert_eq!(pages.len(), 10_001);
    assert_eq!(pages.last().unwrap().page_number, 10_001);
}

#[test]
fn split_divides_at_midpoint_and_grows_tree() {
    let parent = tree(128);
    let mut appended = flatten(&parent)[127].clone();
    appended.page_number = 129;
    let roots = update(&Codec, &parent, &[appended], 129, &mut Artifacts::new()).unwrap();
    assert_eq!(roots.len(), 2);
    assert_eq!(roots[0].max, 64);
    assert_eq!(roots[1].min, 65);
    let changed = [ChangedPage {
        number: 129,
        bytes: vec![1; 4096],
    }];
    let image = persist(&Codec, Some(&parent), &changed, 129).unwrap();
    assert_eq!(image.root.unwrap().height, 1);
}

#[test]
fn serialized_size_splits_nodes_below_entry_capacity() {
    let parent = tree(40);
    let mut entries = flatten(&parent);
    for entry in &mut entries {
        entry.pack.uri = format!("pack/{}", "x".repeat(30_000));
    }
    let nodes = leaf_nodes(&Codec, entries, &mut Artifacts::new()).unwrap();
    assert_eq!(nodes.len(), 2);
    for node in nodes {
        assert!(Codec.encode(&node.node).unwrap().len() <= MAXIMUM);
    }
}

fn table_of(root: &Arc<Tree>) -> NodeTable {
    let mut table = NodeTable::new();
    let mut pending = vec![root.clone()];
    while let Some(tree) = pending.pop() {
        table.add(tree.reference.clone(), copy(&tree.node)).unwrap();
        pending.extend(tree.children.iter().cloned());
    }
    table
}

fn copy(node: &PageMapNode) -> PageMapNode {
    match node {
        PageMapNode::Leaf { entries } => PageMapNode::Leaf {
            entries: entries.clone(),
        },
        PageMapNode::Internal { level, entries } => PageMapNode::Internal {
            level: *level,
            entries: entries.clone(),
        },
    }
}

#[test]
fn materializer_rejects_incorrect_subtree_maximum() {
    let parent = tree(256);
    let mut table = table_of(&parent);
    let mut node = copy(&parent.node);
    let PageMapNode::Internal { entries, .. } = &mut node else {
        unreachable!()
    };
    entries[0].max_page -= 1;
    let bytes = Codec.encode(&node).unwrap();
    let reference = PageObjectReference {
        uri: "bad-root".into(),
        sha256: Sha256::digest(&bytes),
        length: bytes.len() as u64,
    };
    table.add(reference.clone(), node).unwrap();
    assert!(load_tree(&table, &reference, 1, 0, 256, &mut vec![]).is_err());
    let loaded = load_tree(&table, &parent.reference, 1, 0, 256, &mut vec![]).unwrap();
    assert_eq!(flatten(&loaded).len(), 256);
}

#[test]
fn loading_asks_for_the_node_that_is_missing() {
    let parent = tree(256);
    let table = NodeTable::new();
    let stopped = load_tree(&table, &parent.reference, 1, 0, 256, &mut vec![]);
    assert!(matches!(stopped, Err(LoadStop::Missing(r)) if r == parent.reference));
}

/// Walks from the root to the entry of a page.
fn walk(root: &Arc<Tree>, pages: u64, page: u64) -> Result<Option<PageMapEntry>, RuntimeError> {
    let mut at = root.clone();
    let map = PageMapRoot {
        uri: root.reference.uri.clone(),
        sha256: root.reference.sha256,
        length: root.reference.length,
        height: root.node.level(),
    };
    let mut state = start_map(&map, pages);
    loop {
        match map_step(&at.node, &state, page)? {
            MapStep::Found(entry) => return Ok(Some(entry)),
            MapStep::Unmapped => return Ok(None),
            MapStep::Descend { reference, walk } => {
                let child = at
                    .children
                    .iter()
                    .find(|child| child.reference == reference)
                    .unwrap()
                    .clone();
                at = child;
                state = walk;
            }
        }
    }
}

#[test]
fn walks_find_exactly_the_mapped_pages() {
    let mut artifacts = Artifacts::new();
    let entries: Vec<PageMapEntry> = (1..=1000).map(|n| entry(n * 2)).collect();
    let leaves = leaf_nodes(&Codec, entries, &mut artifacts).unwrap();
    let root = grow(&Codec, leaves, &mut artifacts).unwrap().unwrap();
    for page in [1, 2, 3, 257, 258, 1023, 1024, 1999, 2000, 2001] {
        let found = walk(&root, 2001, page).unwrap();
        assert_eq!(found.map(|e| e.page_number), (page % 2 == 0 && page <= 2000).then_some(page));
    }
}

#[test]
fn walks_refuse_nodes_that_do_not_fit() {
    let leaf = PageMapNode::Leaf {
        entries: vec![entry(3), entry(5)],
    };
    let step = |height, lower, upper, is_root| {
        map_step(
            &leaf,
            &MapWalk {
                height,
                lower,
                upper,
                is_root,
            },
            3,
        )
    };
    assert!(matches!(step(0, 2, 5, false), Ok(MapStep::Found(_))));
    assert!(matches!(step(0, 0, 9, true), Ok(MapStep::Found(_))));
    for bad in [step(1, 2, 5, false), step(0, 2, 9, false), step(0, 2, 4, true)] {
        assert!(
            matches!(bad, Err(RuntimeError::Corrupt(m)) if m == "invalid page-map height or interval")
        );
    }
    assert!(matches!(
        step(0, 3, 5, false),
        Err(RuntimeError::Corrupt(m)) if m == "overlapping page-map interval"
    ));
    let parent = tree(256);
    let overlapping = map_step(
        &parent.node,
        &MapWalk {
            height: 1,
            lower: 128,
            upper: 256,
            is_root: true,
        },
        200,
    );
    assert!(matches!(
        overlapping,
        Err(RuntimeError::Corrupt(m)) if m == "overlapping page-map child interval"
    ));
}

fn checkpoint(pages: u64) -> Vec<u8> {
    (0..pages)
        .flat_map(|n| {
            let mut page = vec![0u8; 4096];
            page[..8].copy_from_slice(&n.to_be_bytes());
            page
        })
        .collect()
}

fn built(bytes: &[u8]) -> (CheckpointPageIndex, BTreeMap<String, Vec<u8>>) {
    let (index, artifacts) = build(
        &Codec,
        Sha256::digest(bytes),
        bytes.len() as u64,
        4096,
        bytes,
    )
    .unwrap();
    let stored = artifacts.into_iter().map(|a| (a.uri, a.bytes)).collect();
    (index, stored)
}

#[test]
fn checkpoint_indexes_are_content_addressed_and_as_low_as_possible() {
    let (index, objects) = built(&checkpoint(128));
    assert_eq!((index.page_count, index.root.height, objects.len()), (128, 0, 1));
    let (index, objects) = built(&checkpoint(129));
    assert_eq!((index.page_count, index.root.height, objects.len()), (129, 1, 3));
    for (uri, bytes) in &objects {
        assert_eq!(
            uri,
            &format!(
                "_otmp/checkpoint-page-index/{}.cbor",
                Sha256::digest(bytes).to_text()
            )
        );
    }
    assert!(objects.contains_key(&index.root.uri));
    let ragged = build(&Codec, Sha256::digest(&[1]), 1, 4096, &[1]);
    assert!(matches!(
        ragged,
        Err(RuntimeError::Corrupt(m)) if m == "invalid checkpoint bytes for page index"
    ));
}

#[test]
fn the_leaves_of_an_index_hold_the_digests_of_their_pages() {
    let bytes = checkpoint(129);
    let (_, objects) = built(&bytes);
    let hashes: Vec<Sha256> = bytes.chunks(4096).map(Sha256::digest).collect();
    for (first_page, hashes) in [(1, hashes[..128].to_vec()), (129, hashes[128..].to_vec())] {
        let leaf = CheckpointIndexNode::Leaf { first_page, hashes };
        let expected = Codec.encode_index(&leaf).unwrap();
        assert!(objects.values().any(|stored| *stored == expected));
    }
}

#[test]
fn index_walks_end_at_the_digest_of_the_page() {
    let leaf = CheckpointIndexNode::Leaf {
        first_page: 129,
        hashes: vec![Sha256::digest(b"a"), Sha256::digest(b"b")],
    };
    let walk = IndexWalk {
        height: 0,
        first: 129,
        count: 2,
    };
    assert!(matches!(
        index_step(&leaf, &walk, 130),
        Ok(IndexStep::Digest(d)) if d == Sha256::digest(b"b")
    ));
    assert!(matches!(
        index_step(&leaf, &walk, 131),
        Err(RuntimeError::Corrupt(m)) if m == "checkpoint hash missing"
    ));
    assert!(matches!(
        index_step(&leaf, &IndexWalk { count: 3, ..walk }, 130),
        Err(RuntimeError::Corrupt(m)) if m == "checkpoint index interval or height mismatch"
    ));
    let (index, _) = built(&checkpoint(3));
    assert!(matches!(
        start_index(&index, 4),
        Err(RuntimeError::Corrupt(m)) if m == "missing extended metadata page"
    ));
    assert!(start_index(&index, 0).is_err());
    assert_eq!(start_index(&index, 3).unwrap().count, 3);
}

#[test]
fn persisted_maps_hold_the_changed_pages() {
    let changed = [
        ChangedPage {
            number: 2,
            bytes: vec![2; 4096],
        },
        ChangedPage {
            number: 4,
            bytes: vec![4; 4096],
        },
    ];
    let image = persist(&Codec, None, &changed, 4).unwrap();
    let root = image.root.unwrap();
    assert_eq!(root.height, 0);
    assert_eq!(image.artifacts.len(), 2);
    assert!(image.artifacts.iter().any(|a| a.uri == root.uri));
    assert!(image.artifacts.iter().any(|a| a.uri.starts_with("_otmp/page-packs/")));
    let total: usize = image.artifacts.iter().map(|a| a.bytes.len()).sum();
    assert_eq!(image.reachable_bytes, total as u64);
    assert!(matches!(
        persist(&Codec, None, &changed, 3),
        Err(RuntimeError::Corrupt(m)) if m == "candidate changed page beyond EOF"
    ));
}

#[test]
fn a_map_keeps_the_pages_that_a_change_leaves() {
    let changed = [
        ChangedPage { number: 2, bytes: vec![2; 4096] },
        ChangedPage { number: 9, bytes: vec![9; 4096] },
    ];
    assert!(matches!(
        persist(&Codec, None, &changed, 8),
        Err(RuntimeError::Corrupt(m)) if m == "candidate changed page beyond EOF"
    ));
    let image = persist(&Codec, None, &changed, 9).unwrap();
    let tree = image.tree.unwrap();
    let pages: Vec<u64> = flatten(&tree).iter().map(|e| e.page_number).collect();
    assert_eq!(pages, vec![2, 9]);
    let next = [ChangedPage { number: 9, bytes: vec![8; 4096] }];
    let image = persist(&Codec, Some(&tree), &next, 9).unwrap();
    let entries = flatten(image.tree.as_ref().unwrap());
    assert_eq!(entries[0].page_sha256, Sha256::digest(&[2; 4096]));
    assert_eq!(entries[1].page_sha256, Sha256::digest(&[8; 4096]));
}

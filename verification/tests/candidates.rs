//! Candidates: the documents and objects of a new head, and what reads them back.
use otmp::append::{
    AppendFile, AppendRequest, FileFormat, FileMetric, MetricBound, SourceFingerprint,
    VerifiedStagedFile,
};
use otmp::append_image::{append_image, image_files, RowCodec};
use otmp::candidate::{
    finish_candidate, finish_genesis, initialize_operation, next_version, plan_image,
    prepare_append, prepare_genesis, Candidate, CandidateImage, GenesisDocuments, ImagePlan,
    MediaTypes, ParentFacts, PreparedAppend, PreparedCommit,
};
use otmp::checkpoint_index::{build, CheckpointIndexCodec, CheckpointIndexNode, CheckpointPageIndex};
use otmp::cow_writer::{ImageBytes, Overlay};
use otmp::documents::{Checkpoint, DocumentCodec, Generation, Head, SemanticCommit};
use otmp::error::RuntimeError;
use otmp::hash::{Id, Sha256};
use otmp::page_map::{PageCodec, PageMapNode};
use otmp::page_read::{
    check_image, check_image_root, checkpoint_page, checkpoint_window, mapped_page,
    AuthenticatedImage,
};
use otmp::page_walk::{PageRead, PageWant};
use otmp::physical::{ChangedPage, PackEntry, PageMapCodec, PagePackCodec};
use otmp::pin::MetadataSelection;
use otmp::resolve::{assemble, flatten, ImageStop, LoadedPack};
use otmp::selection_walk::{SelectionWalk, WalkRead};
use otmp::storage::{ObjectMetadata, ObjectVersion};
use otmp::value::{CanonicalValue, Member};

/// Writes documents as their debug text, and digests that text.
struct Codec;

fn written<T: std::fmt::Debug>(value: &T) -> Result<Vec<u8>, RuntimeError> {
    Ok(format!("{value:?}").into_bytes())
}

impl DocumentCodec for Codec {
    fn validate_head(&self, _: &Head) -> Result<(), RuntimeError> {
        Ok(())
    }

    fn validate_generation(&self, _: &Generation) -> Result<(), RuntimeError> {
        Ok(())
    }

    fn validate_index(
        &self,
        index: &CheckpointPageIndex,
        checkpoint: &Checkpoint,
        page_size: u32,
    ) -> Result<(), RuntimeError> {
        if index.checkpoint_sha256 != checkpoint.sha256 || index.page_size != page_size {
            return Err(RuntimeError::Corrupt("another checkpoint".to_string()));
        }
        Ok(())
    }

    fn require_supported(&self, _: &Vec<String>) -> Result<(), RuntimeError> {
        Ok(())
    }

    fn validate_commit(&self, _: &SemanticCommit) -> Result<(), RuntimeError> {
        Ok(())
    }

    fn encode_commit(&self, commit: &SemanticCommit) -> Result<Vec<u8>, RuntimeError> {
        written(commit)
    }

    fn encode_generation(&self, generation: &Generation) -> Result<Vec<u8>, RuntimeError> {
        written(generation)
    }

    fn encode_head(&self, head: &Head) -> Result<Vec<u8>, RuntimeError> {
        written(head)
    }

    fn next_state(&self, previous: Sha256, commit: &SemanticCommit) -> Result<Sha256, RuntimeError> {
        Ok(Sha256::digest(
            format!("{} {:?}", previous.to_text(), commit.operations).as_bytes(),
        ))
    }

    fn genesis_state(&self, commit: &SemanticCommit) -> Result<Sha256, RuntimeError> {
        Ok(Sha256::digest(format!("{:?}", commit.operations).as_bytes()))
    }

    fn image_root(
        &self,
        table_id: Id,
        table_version: u64,
        page_size: u32,
        page_count: u64,
        checkpoint: Sha256,
        page_map: Option<Sha256>,
    ) -> Sha256 {
        let map = page_map.map_or(String::new(), |sha256| sha256.to_text());
        Sha256::digest(
            format!(
                "{} {table_version} {page_size} {page_count} {} {map}",
                table_id.to_text(),
                checkpoint.to_text()
            )
            .as_bytes(),
        )
    }
}

impl CheckpointIndexCodec for Codec {
    fn encode_index(&self, node: &CheckpointIndexNode) -> Result<Vec<u8>, RuntimeError> {
        written(node)
    }
}

impl PageMapCodec for Codec {
    fn validate(&self, _: &PageMapNode) -> Result<(), RuntimeError> {
        Ok(())
    }

    fn encode(&self, node: &PageMapNode) -> Result<Vec<u8>, RuntimeError> {
        written(node)
    }
}

fn index_of(page_size: u32, pages: &[ChangedPage]) -> Vec<PackEntry> {
    let mut offset = 64;
    let mut index = Vec::new();
    for page in pages {
        index.push(PackEntry {
            page_number: page.number,
            offset,
            stored_length: page.bytes.len() as u32,
            raw_length: page_size,
            codec: PageCodec::Plain,
            page_sha256: Sha256::digest(&page.bytes),
        });
        offset += page.bytes.len() as u64;
    }
    index
}

impl PagePackCodec for Codec {
    fn pack(
        &self,
        page_size: u32,
        pages: &[ChangedPage],
    ) -> Result<(Vec<u8>, Vec<PackEntry>), RuntimeError> {
        let mut bytes = vec![0; 64];
        for page in pages {
            bytes.extend_from_slice(&page.bytes);
        }
        Ok((bytes, index_of(page_size, pages)))
    }
}

fn id(n: u8) -> Id {
    Id::from_bytes([n; 16])
}

fn media() -> MediaTypes {
    MediaTypes { commit: "commit/json".to_string(), generation: "generation/json".to_string() }
}

/// An image with a header that counts its pages.
fn image(pages: u8) -> Vec<u8> {
    let mut bytes = vec![0u8; usize::from(pages) * 4096];
    bytes[..16].copy_from_slice(b"SQLite format 3\0");
    bytes[16..18].copy_from_slice(&[0x10, 0x00]);
    bytes[31] = pages;
    bytes
}

fn prepared_genesis() -> PreparedCommit {
    let documents = GenesisDocuments {
        table_id: id(1),
        commit_id: id(2),
        created_at_ms: 5,
        schema: CanonicalValue::Text("schema".to_string()),
        metadata: CanonicalValue::Object(vec![]),
        features: vec!["f".to_string()],
    };
    let operation = initialize_operation(&documents);
    assert!(matches!(operation, CanonicalValue::Object(_)));
    let prepared = prepare_genesis(&Codec, &documents, Sha256::digest(b"intent")).unwrap();
    assert_eq!(prepared.commit.table_version, 0);
    assert_eq!(prepared.commit.intents[0].key, "otmp.genesis");
    assert_eq!(
        prepared.commit.semantic_state_sha256,
        Codec.genesis_state(&prepared.commit).unwrap()
    );
    prepared
}

fn genesis() -> Candidate {
    let prepared = prepared_genesis();
    finish_genesis(&Codec, prepared, &media(), id(3), image(20), 20, id(4)).unwrap()
}

#[test]
fn a_first_candidate_holds_its_checkpoint_and_index() {
    let candidate = genesis();
    assert_eq!(candidate.head.root_revision, 0);
    assert_eq!(candidate.head.table_id, id(1));
    assert_eq!(candidate.head.required_reader_features, vec!["f".to_string()]);
    let stored = &candidate.generation.metadata_image;
    let last = candidate.image_artifacts.last().unwrap();
    assert_eq!(last.uri, stored.checkpoint.uri);
    assert_eq!(stored.checkpoint.sha256, Sha256::digest(&last.bytes));
    let index = stored.checkpoint_page_index.as_ref().unwrap();
    assert_eq!(index.page_count, 20);
    assert!(candidate.image_artifacts.iter().any(|a| a.uri == index.root.uri));
    assert_eq!(
        candidate.head.metadata_generation.sha256,
        Sha256::digest(&candidate.generation_bytes)
    );
    assert_eq!(candidate.head_bytes, Codec.encode_head(&candidate.head).unwrap());
}

#[test]
fn an_image_with_another_root_is_refused() {
    let mut generation = genesis().generation;
    check_image_root(&Codec, &generation).unwrap();
    check_image(&Codec, &generation).unwrap();
    generation.metadata_image.page_count = 21;
    let error = check_image_root(&Codec, &generation).unwrap_err();
    assert_eq!(error.message(), "table is corrupt: metadata image root mismatch");
    let error = check_image(&Codec, &generation).unwrap_err();
    assert_eq!(
        error.message(),
        "table is corrupt: invalid logical image identity or geometry"
    );
    generation.metadata_image.checkpoint_page_index = None;
    assert!(matches!(
        check_image(&Codec, &generation),
        Err(RuntimeError::AuthenticatedRangesUnavailable)
    ));
}

fn request() -> AppendRequest {
    AppendRequest::new(
        "key".to_string(),
        vec![AppendFile {
            source_path: "/tmp/a.parquet".to_string(),
            fingerprint: SourceFingerprint { sha256: Sha256::digest(b"file"), length: 4 },
            format: FileFormat::Parquet,
            record_count: 7,
            schema_id: 1,
            partition_spec_id: 0,
            sort_order_id: 0,
            partition_values: vec![],
            metrics: vec![],
            metadata: vec![],
        }],
    )
}

fn staged() -> Vec<VerifiedStagedFile> {
    vec![VerifiedStagedFile {
        table_id: id(1),
        ordinal: 0,
        file_id: id(9),
        uri: "data/nine.parquet".to_string(),
        version: ObjectVersion::from_opaque("v".to_string()),
        sha256: Sha256::digest(b"file"),
        length: 4,
        format: FileFormat::Parquet,
        object_identity: None,
    }]
}

fn parent(candidate: Candidate) -> ParentFacts {
    ParentFacts {
        head: candidate.head,
        snapshot_id: None,
        last_sequence: 0,
        image: candidate.generation.metadata_image,
    }
}

fn member<'a>(members: &'a [Member], key: &str) -> &'a CanonicalValue {
    &members.iter().find(|m| m.key == key).unwrap().value
}

#[test]
fn a_candidate_follows_its_parent() {
    let first = genesis();
    let former = first.generation.metadata_image.checkpoint.uri.clone();
    let parent = parent(first);
    assert_eq!(next_version(&parent.head).unwrap(), 1);
    let prepared = prepare_append(
        &Codec,
        &request(),
        &staged(),
        Sha256::digest(b"logical"),
        &parent,
        id(5),
        id(6),
        9,
    )
    .unwrap();
    assert_eq!(prepared.result.sequence_number, 1);
    assert_eq!(prepared.result.table_version, 1);
    assert!(matches!(
        member(&prepared.summary, "added-records"),
        CanonicalValue::Text(n) if n == "7"
    ));
    assert_eq!(
        prepared.commit.semantic_state_sha256,
        Codec.next_state(parent.head.semantic_state_sha256, &prepared.commit).unwrap()
    );
    let pages = vec![ChangedPage { number: 3, bytes: vec![3; 4096] }];
    let plan = plan_image(&Codec, &prepared.commit, None, &pages, 20).unwrap();
    let changes = match plan {
        ImagePlan::Incremental(changes) => changes,
        ImagePlan::Checkpoint => panic!("a small change needs no checkpoint"),
    };
    let root = changes.root.clone().unwrap();
    let candidate = finish_candidate(
        &Codec,
        &parent,
        &prepared.commit,
        prepared.commit_uri.clone(),
        prepared.commit_bytes.clone(),
        &media(),
        CandidateImage::Incremental(changes),
        20,
        id(7),
    )
    .unwrap();
    assert_eq!(candidate.head.root_revision, 1);
    assert_eq!(candidate.head.table_id, parent.head.table_id);
    assert_eq!(candidate.generation.table_id, parent.head.table_id);
    assert_eq!(
        candidate.head.required_writer_features,
        parent.head.required_writer_features
    );
    let stored = &candidate.generation.metadata_image;
    assert_eq!(stored.checkpoint.uri, former);
    assert_eq!(stored.page_map.as_ref().unwrap().sha256, root.sha256);
    assert_eq!(
        candidate.generation.physical_parent.as_ref().unwrap().sha256,
        parent.head.metadata_generation.sha256
    );
    check_image_root(&Codec, &candidate.generation).unwrap();
}

#[test]
fn a_change_of_the_whole_image_is_a_checkpoint() {
    let prepared = prepare_append(
        &Codec,
        &request(),
        &staged(),
        Sha256::digest(b"logical"),
        &parent(genesis()),
        id(5),
        id(6),
        9,
    )
    .unwrap();
    let pages: Vec<ChangedPage> =
        (1..=2).map(|number| ChangedPage { number, bytes: vec![number as u8; 4096] }).collect();
    assert!(matches!(
        plan_image(&Codec, &prepared.commit, None, &pages, 2),
        Ok(ImagePlan::Checkpoint)
    ));
    assert!(matches!(
        plan_image(&Codec, &prepared.commit, None, &pages, u64::MAX),
        Err(RuntimeError::Corrupt(m)) if m == "candidate image length overflow"
    ));
}

#[test]
fn what_was_written_reads_back() {
    let checkpoint = image(20);
    let mut overlay = Overlay::new(ImageBytes { bytes: checkpoint.clone() });
    let mut first = image(21)[..4096].to_vec();
    first[100] = 1;
    overlay.write_page(1, first).unwrap();
    overlay.write_page(7, vec![7; 4096]).unwrap();
    overlay.write_page(21, vec![21; 4096]).unwrap();
    let expected = overlay.export().unwrap();
    let frozen = overlay.freeze().unwrap();
    let pages = frozen.changed_pages();
    let numbers: Vec<u64> = pages.iter().map(|p| p.number).collect();
    assert_eq!(numbers, vec![1, 7, 21]);
    let written = otmp::physical::persist(&Codec, None, &pages, 21).unwrap();
    let tree = written.tree.as_ref().unwrap();
    let mapped: Vec<u64> = flatten(tree).iter().map(|e| e.page_number).collect();
    assert_eq!(mapped, numbers);
    let mut packs: Vec<LoadedPack> = Vec::new();
    let missing = match assemble(&checkpoint, 4096, 21, Some(tree), &packs) {
        Err(ImageStop::Missing(missing)) => missing,
        Err(ImageStop::Failed(e)) => panic!("{}", e.message()),
        Ok(_) => panic!("no pack was read"),
    };
    assert_eq!(missing, flatten(tree)[0].pack);
    let bytes = written.artifacts.iter().find(|a| a.uri == missing.uri).unwrap().bytes.clone();
    packs.push(LoadedPack::checked(missing, bytes, 4096, index_of(4096, &pages)).unwrap());
    match assemble(&checkpoint, 4096, 21, Some(tree), &packs) {
        Ok(read) => assert_eq!(read, expected),
        Err(ImageStop::Failed(e)) => panic!("{}", e.message()),
        Err(ImageStop::Missing(r)) => panic!("{r:?}"),
    }
    for entry in flatten(tree) {
        let from = entry.offset as usize;
        let stored = &packs[0].bytes[from..from + entry.stored_length as usize];
        let at = (entry.page_number as usize - 1) * 4096;
        assert_eq!(mapped_page(&entry, stored).unwrap(), &expected[at..at + 4096]);
    }
    let range = checkpoint_window(3, 8192, checkpoint.len() as u64);
    assert_eq!((range.start, range.end), (8192, 16384));
    let digest = Sha256::digest(&checkpoint[8192..12288]);
    let alone = checkpoint_page(3, range.start, &checkpoint[8192..16384], &digest).unwrap();
    assert_eq!(alone, &expected[8192..12288]);
    packs[0].entries[1].page_sha256 = Sha256::digest(b"other");
    assert!(matches!(
        assemble(&checkpoint, 4096, 21, Some(tree), &packs),
        Err(ImageStop::Failed(RuntimeError::Corrupt(m))) if m == "map disagrees with pack index"
    ));
}

/// Writes values as their debug text; refuses the text "refused".
struct Rows;

impl RowCodec for Rows {
    fn value_text(&self, value: &CanonicalValue) -> Result<String, RuntimeError> {
        let text = format!("{value:?}");
        if text.contains("refused") {
            return Err(RuntimeError::Corrupt(text));
        }
        Ok(text)
    }

    fn partition_tuple(&self, values: &Vec<Member>) -> Vec<u8> {
        vec![0x80, values.len() as u8]
    }

    fn partition_hash(&self, spec: u32, tuple: &Vec<u8>) -> Sha256 {
        Sha256::digest(format!("{spec} {tuple:?}").as_bytes())
    }
}

fn bound(value: &str) -> MetricBound {
    MetricBound {
        value: CanonicalValue::Text(value.to_string()),
        cbor: value.as_bytes().to_vec(),
        problem: None,
        accepted: true,
        null: false,
        nan: false,
    }
}

fn measured() -> AppendRequest {
    let mut request = request();
    request.files[0].metrics.push(FileMetric {
        field_id: 1,
        column_size_bytes: Some(12),
        value_count: Some(7),
        null_count: None,
        nan_count: None,
        distinct_count: None,
        lower_bound: Some(bound("a")),
        upper_bound: None,
        reversed: false,
        metadata: vec![],
    });
    request
}

fn prepared_append(request: &AppendRequest, parent: &ParentFacts) -> PreparedAppend {
    let intent = Sha256::digest(b"logical");
    prepare_append(&Codec, request, &staged(), intent, parent, id(5), id(6), 9).unwrap()
}

#[test]
fn the_rows_of_an_append_hold_what_was_staged_and_prepared() {
    let request = measured();
    let parent = parent(genesis());
    let prepared = prepared_append(&request, &parent);
    let image = append_image(&Rows, &request, &staged(), &parent, &prepared).unwrap();
    assert_eq!(image.table_version, 1);
    assert_eq!(image.created_at_ms, 9);
    assert_eq!(image.commit_id, id(5));
    assert_eq!(image.snapshot_id, id(6));
    assert_eq!(image.commit_hash, Sha256::digest(&prepared.commit_bytes));
    assert_eq!(image.idempotency_key, "key");
    assert_eq!(image.intent_hash, Sha256::digest(b"logical"));
    assert_eq!(image.target_ref, "main");
    assert_eq!(image.sequence_number, 1);
    assert_eq!(image.result_json, format!("{:?}", prepared.commit.intents[0].result));
    assert_eq!(image.summary.len(), prepared.summary.len());
    assert_eq!(image.summary[0].key, prepared.summary[0].key);
    assert_eq!(image.summary[0].value_json, format!("{:?}", prepared.summary[0].value));
    let file = &image.files[0];
    assert_eq!((file.file_id, file.file_size_bytes, file.record_count), (id(9), 4, 7));
    assert_eq!(file.uri, "data/nine.parquet");
    assert_eq!(file.content_sha256, Sha256::digest(b"file"));
    assert_eq!(file.partition_values_cbor, vec![0x80, 0]);
    assert_eq!(file.partition_hash, Sha256::digest(b"0 [128, 0]"));
    assert_eq!(file.metrics[0].value_count, Some(7));
    assert_eq!(file.metrics[0].lower_bound_cbor, Some(b"a".to_vec()));
    assert_eq!(file.metrics[0].upper_bound_cbor, None);
}

#[test]
fn an_append_fails_on_the_first_value_without_a_text() {
    let refused = Member {
        key: "note".to_string(),
        value: CanonicalValue::Text("refused".to_string()),
    };
    let mut request = measured();
    image_files(&Rows, &request, &staged()).unwrap();
    request.files[0].metadata.push(refused);
    let error = image_files(&Rows, &request, &staged()).unwrap_err();
    assert!(matches!(error, RuntimeError::Corrupt(_)));
    let parent = parent(genesis());
    let mut prepared = prepared_append(&measured(), &parent);
    assert!(append_image(&Rows, &request, &staged(), &parent, &prepared).is_err());
    prepared.commit.metadata = CanonicalValue::Text("refused first".to_string());
    assert!(matches!(
        append_image(&Rows, &request, &staged(), &parent, &prepared),
        Err(RuntimeError::Corrupt(m)) if m.contains("refused first")
    ));
}

/// A second candidate over the first, with its commit.
fn second() -> (Candidate, SemanticCommit) {
    let parent = parent(genesis());
    let prepared = prepared_append(&request(), &parent);
    let candidate = finish_candidate(
        &Codec,
        &parent,
        &prepared.commit,
        prepared.commit_uri.clone(),
        prepared.commit_bytes.clone(),
        &media(),
        CandidateImage::Checkpoint { id: id(8), bytes: image(20) },
        20,
        id(7),
    )
    .unwrap();
    (candidate, prepared.commit)
}

fn at_the_head(selection: MetadataSelection) -> (SelectionWalk, WalkRead) {
    let (candidate, commit) = second();
    let generation_uri = candidate.head.metadata_generation.uri.clone();
    let commit_uri = candidate.generation.semantic_commit.uri.clone();
    let (walk, read) =
        SelectionWalk::begin(&Codec, candidate.head, selection, &media()).unwrap();
    assert!(matches!(read, WalkRead::Generation(r) if r.uri == generation_uri));
    let (walk, read) = walk.take_generation(&Codec, &media(), candidate.generation).unwrap();
    assert!(matches!(read, WalkRead::Commit(r) if r.uri == commit_uri));
    walk.take_commit(&Codec, &media(), commit).unwrap()
}

#[test]
fn a_walk_arrives_at_the_version_that_was_asked_for() {
    let (walk, read) = at_the_head(MetadataSelection::Current);
    assert!(matches!(read, WalkRead::Nothing));
    assert!(matches!(walk, SelectionWalk::Arrived { wanted: 1, .. }));
    let first = genesis();
    let (walk, read) = at_the_head(MetadataSelection::TableVersion(0));
    assert!(matches!(read, WalkRead::Generation(r) if r.uri == first.generation_uri));
    let (walk, read) = walk.take_generation(&Codec, &media(), first.generation).unwrap();
    assert!(matches!(read, WalkRead::Commit(r) if r.uri == first.commit_uri));
    let (walk, read) = walk.take_commit(&Codec, &media(), prepared_genesis().commit).unwrap();
    assert!(matches!(read, WalkRead::Nothing));
    match walk {
        SelectionWalk::Arrived { wanted, at } => {
            assert_eq!(wanted, 0);
            assert_eq!(at.generation.table_version, 0);
            assert_eq!(at.commit.commit_id, id(2));
        }
        other => panic!("{other:?}"),
    }
}

#[test]
fn a_walk_refuses_what_does_not_follow() {
    let (candidate, _) = second();
    let later = MetadataSelection::TableVersion(2);
    assert!(matches!(
        SelectionWalk::begin(&Codec, candidate.head, later, &media()),
        Err(RuntimeError::MetadataVersionNotFound(2))
    ));
    let (walk, _) = at_the_head(MetadataSelection::TableVersion(0));
    let (again, _) = second();
    assert!(walk.take_generation(&Codec, &media(), again.generation).is_err());
    let mut unlinked = second();
    unlinked.0.generation.physical_parent = None;
    let below = MetadataSelection::TableVersion(0);
    let (walk, _) = SelectionWalk::begin(&Codec, unlinked.0.head, below, &media()).unwrap();
    let (walk, _) = walk.take_generation(&Codec, &media(), unlinked.0.generation).unwrap();
    assert!(matches!(
        walk.take_commit(&Codec, &media(), unlinked.1),
        Err(RuntimeError::HistoryNotRetained(0))
    ));
}

#[test]
fn every_page_that_is_read_alone_is_the_images() {
    let checkpoint = image(20);
    let mut overlay = Overlay::new(ImageBytes { bytes: checkpoint.clone() });
    overlay.write_page(1, image(21)[..4096].to_vec()).unwrap();
    overlay.write_page(7, vec![7; 4096]).unwrap();
    overlay.write_page(21, vec![21; 4096]).unwrap();
    let expected = overlay.export().unwrap();
    let pages = overlay.freeze().unwrap().changed_pages();
    let written = otmp::physical::persist(&Codec, None, &pages, 21).unwrap();
    let tree = written.tree.as_ref().unwrap();
    let pack_uri = flatten(tree)[0].pack.uri.clone();
    let pack = &written.artifacts.iter().find(|a| a.uri == pack_uri).unwrap().bytes;
    let digest = Sha256::digest(&checkpoint);
    let (index, _) = build(&Codec, digest, checkpoint.len() as u64, 4096, &checkpoint).unwrap();
    let index = Some(index);
    let leaf = CheckpointIndexNode::Leaf {
        first_page: 1,
        hashes: checkpoint.chunks(4096).map(Sha256::digest).collect(),
    };
    let view = AuthenticatedImage {
        page_count: 21,
        checkpoint: ObjectMetadata {
            length: checkpoint.len() as u64,
            version: ObjectVersion::from_opaque("v".to_string()),
        },
        fingerprint: digest,
        base_only: false,
    };
    let page_of = |number: u64, checkpoint: &[u8]| {
        let (mut read, mut want) =
            PageRead::begin(&view, number, 4096, &written.root, &index).unwrap();
        loop {
            (read, want) = match want {
                PageWant::MapNode(_) => read.take_map_node(&view, &tree.node, &index),
                PageWant::PackIndex(_) => read.take_pack_index(&view, &index_of(4096, &pages)),
                PageWant::IndexNode(_) => read.take_index_node(&view, 8192, &leaf),
                PageWant::Stored(range) => {
                    let stored = &pack[range.start as usize..range.end as usize];
                    return read.take_stored(&view, stored);
                }
                PageWant::Window(range) => {
                    let bytes = &checkpoint[range.start as usize..range.end as usize];
                    return read.take_window(&view, bytes);
                }
            }
            .unwrap();
        }
    };
    for number in 1..=21u64 {
        let at = (number as usize - 1) * 4096;
        assert_eq!(page_of(number, &checkpoint).unwrap(), &expected[at..at + 4096]);
    }
    let mut damaged = checkpoint.clone();
    damaged[2 * 4096] ^= 1;
    assert_eq!(
        page_of(3, &damaged).unwrap_err().message(),
        "table is corrupt: checkpoint page hash mismatch"
    );
    assert_eq!(page_of(4, &damaged).unwrap(), &expected[3 * 4096..4 * 4096]);
    for (number, output) in [(0, 16), (22, 16), (1, 4097)] {
        assert!(matches!(
            PageRead::begin(&view, number, output, &written.root, &index),
            Err(RuntimeError::Corrupt(m)) if m == "metadata page request outside image"
        ));
    }
    assert!(matches!(
        PageRead::begin(&view, 3, 16, &None, &None),
        Err(RuntimeError::AuthenticatedRangesUnavailable)
    ));
}

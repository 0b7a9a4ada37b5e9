//! Digests, identifiers, compressed pages and errors.
use otmp::error::{ProtocolError, RuntimeError};
use otmp::hash::{Id, Sha256};
use otmp::page_map::{content_reference, PageCodec, PageMapEntry, PageObjectReference};
use otmp::page_read::{generation_fingerprint, mapped_page};
use otmp::physical::PackEntry;
use otmp::resolve::{assemble, page_from_pack, ImageStop, LoadedPack};
use otmp::storage::StorageError;
use otmp::text::{byte_length, canonical_u64, text_less};

#[test]
fn digests_are_sha256() {
    assert_eq!(
        Sha256::digest(b"abc").to_text(),
        "ba7816bf8f01cfea414140de5dae2223b00361a396177a9cb410ff61f20015ad"
    );
    assert!(Sha256::digest(b"abc").matches(b"abc"));
    assert!(!Sha256::digest(b"abc").matches(b"abd"));
}

#[test]
fn identifiers_are_written_in_groups() {
    let bytes = [
        0x01, 0x8f, 0x31, 0xf4, 0x2b, 0xbd, 0x7e, 0x47, 0xa8, 0xbd, 0xe5, 0xc9, 0xb3, 0x6d, 0x8b,
        0x0a,
    ];
    assert_eq!(Id::from_bytes(bytes).to_text(), "018f31f4-2bbd-7e47-a8bd-e5c9b36d8b0a");
}

#[test]
fn fresh_identifiers_have_the_time_ordered_version() {
    let first = Id::fresh();
    let second = Id::fresh();
    assert_ne!(first, second);
    for id in [first, second] {
        assert_eq!(id.bytes[6] >> 4, 7);
        assert_eq!(id.bytes[8] >> 6, 2);
    }
}

#[test]
fn objects_are_addressed_by_their_content() {
    let reference = content_reference("_otmp/maps/", ".map", b"abc");
    assert_eq!(
        reference.uri,
        "_otmp/maps/ba7816bf8f01cfea414140de5dae2223b00361a396177a9cb410ff61f20015ad.map"
    );
    assert_eq!(reference.length, 3);
    assert_eq!(reference.sha256, Sha256::digest(b"abc"));
}

#[test]
fn generations_have_a_fingerprint_of_bytes_and_revision() {
    let one = generation_fingerprint(b"generation", b"r1");
    assert_eq!(one, generation_fingerprint(b"generation", b"r1"));
    assert_ne!(one, generation_fingerprint(b"generation", b"r2"));
    assert_ne!(one, generation_fingerprint(b"generatios", b"r1"));
}

fn page() -> Vec<u8> {
    (0..4096u32).map(|i| (i / 64) as u8).collect()
}

fn pack_reference() -> PageObjectReference {
    PageObjectReference {
        uri: "_otmp/packs/a.pack".to_string(),
        sha256: Sha256::digest(b"pack"),
        length: 8192,
    }
}

fn entry(codec: PageCodec, stored: &[u8], page: &[u8]) -> PageMapEntry {
    PageMapEntry {
        page_number: 1,
        pack: pack_reference(),
        offset: 64,
        stored_length: stored.len() as u32,
        raw_length: 4096,
        codec,
        page_sha256: Sha256::digest(page),
    }
}

fn loaded(entry: &PageMapEntry, stored: &[u8]) -> LoadedPack {
    let mut bytes = vec![0u8; 64];
    bytes.extend_from_slice(stored);
    bytes.extend_from_slice(&vec![0u8; 64]);
    LoadedPack {
        reference: pack_reference(),
        bytes,
        page_size: 4096,
        entries: vec![PackEntry {
            page_number: 1,
            offset: 64,
            stored_length: entry.stored_length,
            raw_length: 4096,
            codec: entry.codec,
            page_sha256: entry.page_sha256,
        }],
    }
}

#[test]
fn compressed_pages_come_out_of_their_pack() {
    let page = page();
    let stored = zstd::bulk::compress(&page, 3).unwrap();
    assert!(stored.len() < 4096);
    let mapping = entry(PageCodec::Zstd, &stored, &page);
    let pack = loaded(&mapping, &stored);
    assert_eq!(page_from_pack(&mapping, &pack, 4096).unwrap(), page);
    let plain = entry(PageCodec::Plain, &page, &page);
    assert_eq!(page_from_pack(&plain, &loaded(&plain, &page), 4096).unwrap(), page);
}

#[test]
fn a_page_with_another_digest_is_refused() {
    let page = page();
    let stored = zstd::bulk::compress(&page, 3).unwrap();
    let mapping = entry(PageCodec::Zstd, &stored, b"other");
    let error = page_from_pack(&mapping, &loaded(&mapping, &stored), 4096).unwrap_err();
    assert!(matches!(error, RuntimeError::Corrupt(_)));
}

#[test]
fn single_pages_are_decompressed_within_the_window() {
    let page = page();
    let stored = zstd::bulk::compress(&page, 3).unwrap();
    assert_eq!(mapped_page(&entry(PageCodec::Zstd, &stored, &page), &stored).unwrap(), page);
    assert_eq!(mapped_page(&entry(PageCodec::Plain, &page, &page), &page).unwrap(), page);
    assert!(mapped_page(&entry(PageCodec::Zstd, b"junk", &page), b"junk").is_err());
    let long = zstd::bulk::compress(&vec![7u8; 9000], 3).unwrap();
    assert!(mapped_page(&entry(PageCodec::Zstd, &long, &page), &long).is_err());
}

#[test]
fn an_image_without_a_map_is_its_checkpoint() {
    let mut checkpoint = vec![0u8; 8192];
    checkpoint[..16].copy_from_slice(b"SQLite format 3\0");
    checkpoint[16..18].copy_from_slice(&[0x10, 0x00]);
    checkpoint[28..32].copy_from_slice(&[0, 0, 0, 2]);
    match assemble(&checkpoint, 4096, 2, None, &vec![]) {
        Ok(image) => assert_eq!(image, checkpoint),
        Err(ImageStop::Failed(e)) => panic!("{}", e.message()),
        Err(ImageStop::Missing(r)) => panic!("{r:?}"),
    }
    assert!(matches!(
        assemble(&checkpoint, 4096, 3, None, &vec![]),
        Err(ImageStop::Failed(_))
    ));
}

#[test]
fn errors_have_codes_and_messages() {
    let protocol = RuntimeError::Protocol(ProtocolError {
        code: "OTMP_INVALID_HEAD".to_string(),
        message: "bad head".to_string(),
    });
    let all = [
        (RuntimeError::InvalidTransaction("x".into()), "OTMP_INVALID_TRANSACTION", false),
        (RuntimeError::SemanticConflict("x".into()), "OTMP_SEMANTIC_CONFLICT", false),
        (RuntimeError::SnapshotNotFound, "OTMP_SNAPSHOT_NOT_FOUND", false),
        (RuntimeError::MetadataVersionNotFound(3), "OTMP_METADATA_VERSION_NOT_FOUND", false),
        (RuntimeError::HistoryNotRetained(3), "OTMP_HISTORY_NOT_RETAINED", false),
        (protocol, "OTMP_INVALID_HEAD", false),
        (RuntimeError::Storage(StorageError::Io("x".into())), "OTMP_STORAGE_ERROR", true),
        (RuntimeError::Sqlite("x".into()), "OTMP_SQLITE_ERROR", false),
        (RuntimeError::Io("x".into()), "OTMP_IO_ERROR", false),
        (RuntimeError::AlreadyExists, "OTMP_ALREADY_EXISTS", false),
        (RuntimeError::IdempotencyConflict, "OTMP_IDEMPOTENCY_CONFLICT", false),
        (RuntimeError::FingerprintMismatch, "OTMP_FINGERPRINT_MISMATCH", false),
        (RuntimeError::StagingMismatch("x".into()), "OTMP_STAGING_MISMATCH", false),
        (RuntimeError::InvalidAppend("x".into()), "OTMP_INVALID_APPEND", false),
        (RuntimeError::InvalidInitialize("x".into()), "OTMP_INVALID_INITIALIZE", false),
        (RuntimeError::PublicationIndeterminate, "OTMP_PUBLICATION_INDETERMINATE", true),
        (RuntimeError::RebaseExhausted, "OTMP_REBASE_EXHAUSTED", true),
        (RuntimeError::Corrupt("x".into()), "OTMP_CORRUPT_TABLE", false),
        (RuntimeError::RefNotFound("x".into()), "OTMP_REF_NOT_FOUND", false),
    ];
    for (error, code, retryable) in all {
        assert_eq!(error.code(), code);
        assert_eq!(error.retryable(), retryable);
        let payload = error.payload();
        assert_eq!(payload.code, code);
        assert_eq!(payload.retryable, retryable);
        assert_eq!(payload.message, error.message());
    }
    assert_eq!(
        RuntimeError::HistoryNotRetained(12).message(),
        "history not retained for version: 12"
    );
}

#[test]
fn decimal_texts_are_read_only_in_their_shortest_form() {
    assert_eq!(canonical_u64("0"), Some(0));
    assert_eq!(canonical_u64("18446744073709551615"), Some(u64::MAX));
    for text in ["", "00", "01", "+1", "-1", "1 ", "18446744073709551616", "1a"] {
        assert_eq!(canonical_u64(text), None, "{text}");
    }
}

#[test]
fn texts_are_ordered_by_their_characters() {
    assert!(text_less("a", "b"));
    assert!(text_less("a", "aa"));
    assert!(!text_less("b", "ab"));
    assert_eq!(byte_length("a\u{96ea}"), 4);
}

#[test]
fn compressed_pages_that_are_not_sound_are_refused() {
    let page = page();
    let stored = zstd::bulk::compress(&page, 3).unwrap();
    let cut = &stored[..stored.len() - 1];
    let mapping = entry(PageCodec::Zstd, cut, &page);
    let error = page_from_pack(&mapping, &loaded(&mapping, cut), 4096).unwrap_err();
    assert!(matches!(error, RuntimeError::Io(_)));
    let error = mapped_page(&mapping, cut).unwrap_err();
    assert_eq!(
        error.message(),
        "table is corrupt: invalid or oversized compressed metadata page"
    );
    let short = zstd::bulk::compress(&page[..100], 3).unwrap();
    let mapping = entry(PageCodec::Zstd, &short, &page);
    let error = page_from_pack(&mapping, &loaded(&mapping, &short), 4096).unwrap_err();
    assert_eq!(error.message(), "table is corrupt: invalid decompressed page length or hash");
    let error = mapped_page(&mapping, &short).unwrap_err();
    assert_eq!(
        error.message(),
        "table is corrupt: metadata page hash or decoded length mismatch"
    );
    let error = page_from_pack(&mapping, &loaded(&mapping, &short), 512).unwrap_err();
    assert_eq!(error.message(), "table is corrupt: pack page size mismatch");
}

//! Structural checks on single pages.
use otmp::error::RuntimeError;
use otmp::reader_engine_pages::{local, schema_root, serial_len, varint, PageValidator, Role};
use std::collections::BTreeSet;
use std::io::Read;

const PAGE: usize = 4096;

#[test]
fn ninth_varint_uses_all_eight_bits() {
    assert_eq!(
        varint(&[0x81, 0x80, 0x80, 0x80, 0x80, 0x80, 0x80, 0x80, 0xff])
            .unwrap()
            .1,
        9
    );
}

#[test]
fn varints_are_read_in_base_128() {
    assert_eq!(varint(&[7]).unwrap(), (7, 1));
    assert_eq!(varint(&[0x81, 0x00]).unwrap(), (128, 2));
    assert_eq!(varint(&[0xff; 9]).unwrap(), (u64::MAX, 9));
    assert!(varint(&[]).is_err());
    assert!(varint(&[0x81]).is_err());
}

#[test]
fn table_internal_has_no_payload_bound() {
    let mut v = PageValidator::new(8192, 1, 8);
    let mut p = [0u8; 4096];
    p[0] = 5;
    p[3] = 0;
    p[4] = 1;
    p[8..12].copy_from_slice(&2u32.to_be_bytes());
    p[12..14].copy_from_slice(&20u16.to_be_bytes());
    p[20..24].copy_from_slice(&2u32.to_be_bytes());
    p[24] = 1;
    assert!(v.validate(1, &p).is_err());
}

#[test]
fn local_payload_offset_is_after_payload() {
    assert!(local(5000, 13) > 0);
}

#[test]
fn local_payload_follows_the_file_format() {
    assert_eq!(local(100, 13), 100);
    assert_eq!(local(4061, 13), 4061);
    assert_eq!(local(4062, 13), 489);
    assert_eq!(local(5000, 13), 908);
    assert_eq!(local(1002, 10), 1002);
    assert_eq!(local(1003, 10), 489);
}

#[test]
fn serial_types_have_their_lengths() {
    let expected = [
        (0, 0),
        (1, 1),
        (2, 2),
        (3, 3),
        (4, 4),
        (5, 6),
        (6, 8),
        (7, 8),
        (8, 0),
        (9, 0),
        (12, 0),
        (13, 0),
        (14, 1),
        (25, 6),
    ];
    for (serial, length) in expected {
        assert_eq!(serial_len(serial).unwrap(), length);
    }
    assert!(matches!(serial_len(10), Err(RuntimeError::Corrupt(m)) if m == "reserved SQLite serial type"));
    assert!(serial_len(11).is_err());
}

#[test]
fn bounds_are_errors_not_panics() {
    let mut v = PageValidator::new(4096, 8, 8);
    let mut p = [0u8; 4096];
    p[0] = 5;
    p[3] = 0;
    p[4] = 1;
    p[12..14].copy_from_slice(&4095u16.to_be_bytes());
    assert!(v.validate(1, &p).is_err());
}

#[test]
fn parses_rootpage_from_local_schema_record() {
    // header length 5; four serials: null,null,null,one-byte integer; value 7
    assert_eq!(schema_root(&[5, 0, 0, 0, 1, 7]).unwrap(), Some(7));
}

#[test]
fn rootpage_must_not_cross_local_boundary() {
    assert!(schema_root(&[5, 0, 0, 0, 6]).is_err());
}

#[test]
fn rootpages_are_null_small_or_refused() {
    assert_eq!(schema_root(&[5, 0, 0, 0, 0]).unwrap(), None);
    assert_eq!(schema_root(&[5, 0, 0, 0, 8]).unwrap(), Some(0));
    assert_eq!(schema_root(&[5, 0, 0, 0, 9]).unwrap(), Some(1));
    assert_eq!(schema_root(&[5, 0, 0, 0, 2, 1, 2]).unwrap(), Some(258));
    let refused = [
        (vec![5, 0, 0, 0, 1, 0x80], "negative sqlite_schema root page"),
        (vec![5, 0, 0, 0, 13], "sqlite_schema rootpage is not integer"),
        (vec![4, 0, 0, 0], "sqlite_schema record has too few columns"),
        (vec![9, 0, 0, 0], "schema record header exceeds local payload"),
        (vec![5, 14, 0, 0, 1], "schema record exceeds local payload"),
    ];
    for (payload, message) in refused {
        assert!(
            matches!(schema_root(&payload), Err(RuntimeError::Corrupt(m)) if m == message),
            "{message}"
        );
    }
}

fn sqlite_image() -> Vec<u8> {
    let mut file = tempfile::NamedTempFile::new().unwrap();
    let c = rusqlite::Connection::open(file.path()).unwrap();
    c.pragma_update(None, "page_size", 4096).unwrap();
    c.execute_batch("VACUUM; CREATE TABLE blobs(v BLOB); CREATE INDEX blobs_v ON blobs(v);")
        .unwrap();
    for i in 0..100 {
        c.execute_batch(&format!("CREATE TABLE t{i}(x TEXT);"))
            .unwrap();
    }
    c.execute("INSERT INTO blobs VALUES (?1)", [vec![7u8; 65536]])
        .unwrap();
    drop(c);
    let mut image = Vec::new();
    file.read_to_end(&mut image).unwrap();
    image
}

fn page_bytes(image: &[u8], page: u64) -> &[u8] {
    let start = usize::try_from(page - 1).unwrap() * PAGE;
    &image[start..start + PAGE]
}

/// The first registered page that was not looked at.
fn next_page(v: &PageValidator, pages: u64, seen: &BTreeSet<u64>) -> Option<u64> {
    (1..=pages).find(|p| v.role(*p).is_some() && !seen.contains(p))
}

#[test]
fn validates_reachable_real_sqlite_pages_and_rejects_bounds() {
    let image = sqlite_image();
    let pages = (image.len() / PAGE) as u64;
    let mut v = PageValidator::new(image.len() as u64, 1 << 20, 4096);
    let mut seen = BTreeSet::new();
    while let Some(p) = next_page(&v, pages, &seen) {
        seen.insert(p);
        v.validate(p, page_bytes(&image, p)).unwrap();
    }
    assert!(seen.len() > 2);
    let overflow = (1..=pages)
        .find(|p| matches!(v.role(*p), Some(Role::Overflow { remaining, .. }) if remaining > 4092))
        .unwrap();
    let mut cyclic = page_bytes(&image, overflow).to_vec();
    cyclic[..4].copy_from_slice(&u32::try_from(overflow).unwrap().to_be_bytes());
    assert!(matches!(
        v.validate(overflow, &cyclic),
        Err(RuntimeError::Corrupt(_))
    ));

    let mut bad_root = image[..PAGE].to_vec();
    assert_eq!(
        bad_root[100], 5,
        "the schema must exercise an internal page"
    );
    bad_root[108..112].copy_from_slice(&u32::MAX.to_be_bytes());
    assert!(matches!(
        v.validate(1, &bad_root),
        Err(RuntimeError::Corrupt(_))
    ));
    let mut bad_pointer = image[..PAGE].to_vec();
    bad_pointer[112..114].copy_from_slice(&4095_u16.to_be_bytes());
    assert!(matches!(
        v.validate(1, &bad_pointer),
        Err(RuntimeError::Corrupt(_))
    ));

    let mut low = PageValidator::new(image.len() as u64, 1024, 4096);
    let mut seen = BTreeSet::new();
    loop {
        let page = next_page(&low, pages, &seen).expect("must reach an oversized record");
        seen.insert(page);
        match low.validate(page, page_bytes(&image, page)) {
            Err(RuntimeError::ResourceExhausted(_)) => break,
            result => {
                result.unwrap();
            }
        }
    }
}

#[test]
fn validating_a_page_again_adds_no_roles() {
    let image = sqlite_image();
    let mut v = PageValidator::new(image.len() as u64, 1 << 20, 4096);
    v.validate(1, page_bytes(&image, 1)).unwrap();
    let roles = v.role_count();
    assert!(roles > 1);
    v.validate(1, page_bytes(&image, 1)).unwrap();
    assert_eq!(v.role_count(), roles);
}

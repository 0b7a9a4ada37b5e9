//! Copy-on-write images.
use otmp::cow_writer::{ImageBytes, Overlay};
use otmp::error::RuntimeError;

fn overlay(byte: u8, pages: usize) -> Overlay<ImageBytes> {
    Overlay::new(ImageBytes {
        bytes: vec![byte; pages * 4096],
    })
}

#[test]
fn truncate_and_regrow_never_reveals_parent_or_discarded_overlay_bytes() {
    let parent = vec![0xAB; 3 * 4096];
    let mut storage = overlay(0xAB, 3);
    storage.write_page(3, vec![0xCD; 4096]).unwrap();
    storage.truncate(4100).unwrap();
    storage.truncate(3 * 4096).unwrap();
    let actual = storage.export().unwrap();
    assert_eq!(&actual[..4100], &parent[..4100]);
    assert!(actual[4100..].iter().all(|b| *b == 0));
}

#[test]
fn repeated_page_writes_replace_private_entries_and_failed_close_cannot_freeze() {
    let mut storage = overlay(0xAB, 2);
    for value in [1, 2] {
        storage.write_page(2, vec![value; 4096]).unwrap();
    }
    let image = storage.export().unwrap();
    assert!(image[4096..].iter().all(|b| *b == 2));
    assert!(image[..4096].iter().all(|b| *b == 0xAB));

    let mut candidate = Overlay::new(ImageBytes { bytes: vec![] });
    candidate.write_page(1, vec![1; 4096]).unwrap();
    candidate.set_fail_writes(true);
    assert!(candidate.write_page(1, vec![2; 4096]).is_err());
    assert!(candidate.freeze().is_err());
}

#[test]
fn frozen_images_list_only_the_pages_that_differ() {
    let mut storage = overlay(0, 4);
    storage.write_page(2, vec![0; 4096]).unwrap();
    storage.write_page(3, vec![9; 4096]).unwrap();
    storage.write_page(5, vec![8; 4096]).unwrap();
    let expected = storage.export().unwrap();
    let frozen = storage.freeze().unwrap();
    let numbers: Vec<u64> = frozen.changed_pages().iter().map(|p| p.number).collect();
    assert_eq!(numbers, vec![3, 5]);
    assert_eq!(frozen.length(), 5 * 4096);
    assert!(frozen.changed_page(2).is_none());
    assert_eq!(frozen.changed_page(3).unwrap(), &vec![9; 4096]);
    assert_eq!(frozen.materialize().unwrap(), expected);
}

#[test]
fn reads_span_pages_and_stop_at_the_end() {
    let mut storage = overlay(1, 2);
    storage.write_page(2, vec![2; 4096]).unwrap();
    let (bytes, read) = storage.read_at(4090, 10).unwrap();
    assert_eq!(read, 10);
    assert_eq!(bytes, vec![1, 1, 1, 1, 1, 1, 2, 2, 2, 2]);
    let (_, read) = storage.read_at(8190, 10).unwrap();
    assert_eq!(read, 2);
    assert_eq!(storage.size(), 8192);
}

#[test]
fn a_ragged_image_is_not_frozen() {
    let mut storage = overlay(1, 2);
    storage.truncate(5000).unwrap();
    assert!(matches!(storage.freeze(), Err(RuntimeError::Corrupt(_) | RuntimeError::Turso(_))));
}

#[test]
fn pages_of_another_size_are_refused() {
    let mut storage = overlay(1, 1);
    assert!(storage.write_page(1, vec![0; 100]).is_err());
    assert!(storage.write_page(0, vec![0; 4096]).is_err());
}

//! The budgeted cache of the reader.
use otmp::cache::{Cache, Identity, PageKey};
use otmp::error::RuntimeError;
use otmp::hash::Sha256;
use otmp::page_map::PageObjectReference;
use otmp::storage::ObjectVersion;

#[test]
fn active_reservations_survive_eviction_and_release_on_drop() {
    let mut cache = Cache::new(1024);
    let held = cache.reserve(800).unwrap();
    assert!(cache.reserve(225).is_err());
    assert_eq!(cache.used(), 800);
    cache.release(held);
    assert_eq!(cache.used(), 0);
    assert!(cache.reserve(1024).is_ok());
}

#[test]
fn authenticated_page_keys_and_allocations_share_the_range_budget() {
    let mut cache = Cache::new(8192);
    let key = PageKey {
        generation: Sha256::digest(b"generation"),
        checkpoint: false,
        page: 1,
    };
    let reservation = cache.reserve(4352).unwrap();
    cache
        .insert_page(key, vec![7; 4096], 4096, reservation)
        .unwrap();
    let held = cache.get_page(key).unwrap();
    assert!(cache
        .get_page(PageKey {
            checkpoint: true,
            ..key
        })
        .is_none());
    assert!(cache
        .get_page(PageKey {
            generation: Sha256::digest(b"other"),
            ..key
        })
        .is_none());
    assert!(cache.get_page(PageKey { page: 2, ..key }).is_none());
    // Eviction cannot release the reservation of a page still being copied.
    assert!(cache.reserve(4096).is_err());
    assert_eq!(cache.used(), 4352);
    assert_eq!(cache.bytes(&held).unwrap(), &vec![7; 4096]);
    cache.give_up(held);
    assert_eq!(cache.used(), 0);
    let reservation = cache.reserve(4352).unwrap();
    assert!(cache
        .insert_page(key, vec![0; 4095], 4095, reservation)
        .is_err());
    assert_eq!(cache.used(), 0);
}

fn node(length: u64) -> Identity {
    Identity {
        uri: "node".into(),
        hash: Sha256::digest(b"abcd"),
        length,
        version: None,
    }
}

#[test]
fn reference_conflicts_are_checked_on_cache_hits() {
    let mut cache = Cache::new(8192);
    let reservation = cache.reserve(512).unwrap();
    let held = cache
        .insert(node(4), 0..4, b"abcd".to_vec(), 4, reservation)
        .unwrap();
    cache.give_up(held);
    assert!(cache.get(&node(4), &(0..4)).unwrap().is_some());
    assert!(cache.get(&node(5), &(0..4)).is_err());
}

#[test]
fn eviction_keeps_held_bytes_accounted_then_allows_a_checked_replay() {
    let mut cache = Cache::new(1024);
    let reservation = cache.reserve(512).unwrap();
    let held = cache
        .insert(node(4), 0..4, b"abcd".to_vec(), 4, reservation)
        .unwrap();
    // Making room evicts the entry, but the claim still pays for its bytes.
    assert!(cache.reserve(600).is_err());
    assert_eq!(cache.used(), 512);
    cache.give_up(held);
    assert_eq!(cache.used(), 0);

    let reservation = cache.reserve(512).unwrap();
    cache
        .insert(node(4), 0..4, b"abcd".to_vec(), 4, reservation)
        .unwrap();
    assert!(cache.get(&node(4), &(0..4)).unwrap().is_some());
    assert!(cache.get(&node(5), &(0..4)).is_err());
}

#[test]
fn the_oldest_entry_makes_room_first() {
    let mut cache = Cache::new(2048);
    for (name, bytes) in [("a", b"aaaa"), ("b", b"bbbb")] {
        let identity = Identity {
            uri: name.into(),
            hash: Sha256::digest(bytes),
            length: 4,
            version: None,
        };
        let reservation = cache.reserve(900).unwrap();
        let held = cache
            .insert(identity, 0..4, bytes.to_vec(), 4, reservation)
            .unwrap();
        cache.give_up(held);
    }
    assert_eq!(cache.used(), 1800);
    let room = cache.reserve(1000).unwrap();
    assert_eq!(cache.used(), 1900);
    assert_eq!(cache.peak(), 1900);
    cache.release(room);
    let identity = |name: &str, bytes: &[u8]| Identity {
        uri: name.into(),
        hash: Sha256::digest(bytes),
        length: 4,
        version: None,
    };
    assert!(cache.get(&identity("a", b"aaaa"), &(0..4)).unwrap().is_none());
    assert!(cache.get(&identity("b", b"bbbb"), &(0..4)).unwrap().is_some());
}

#[test]
fn reservations_say_why_they_fail_and_shrink() {
    let mut cache = Cache::new(100);
    let mut held = cache.reserve(60).unwrap();
    assert!(matches!(cache.reserve(41), Err(RuntimeError::ResourceExhausted(_))));
    cache.shrink_to(&mut held, 10);
    assert_eq!(cache.used(), 10);
    assert!(cache.reserve(90).is_ok());
}

#[test]
fn cached_revisions_are_reused_for_the_same_reference_only() {
    let mut cache = Cache::new(8192);
    let identity = Identity {
        version: Some(ObjectVersion::from_opaque("r1".into())),
        ..node(4)
    };
    let reservation = cache.reserve(512).unwrap();
    let held = cache
        .insert(identity, 0..4, b"abcd".to_vec(), 4, reservation)
        .unwrap();
    cache.give_up(held);
    let reference = PageObjectReference {
        uri: "node".into(),
        sha256: Sha256::digest(b"abcd"),
        length: 4,
    };
    let metadata = cache.metadata_for(&reference).unwrap().unwrap();
    assert_eq!((metadata.length, metadata.version.as_opaque()), (4, "r1"));
    let other = PageObjectReference {
        length: 5,
        ..reference.clone()
    };
    assert!(matches!(
        cache.metadata_for(&other),
        Err(RuntimeError::Corrupt(m)) if m == "conflicting cached object reference"
    ));
    let unknown = PageObjectReference {
        uri: "elsewhere".into(),
        ..reference
    };
    assert!(cache.metadata_for(&unknown).unwrap().is_none());
}

#[test]
fn allocations_must_fit_their_reservation() {
    let mut cache = Cache::new(8192);
    let reservation = cache.reserve(300).unwrap();
    assert!(matches!(
        cache.insert(node(4), 0..4, b"abcd".to_vec(), 40, reservation),
        Err(RuntimeError::ResourceExhausted(m)) if m == "cache allocation exceeded reservation"
    ));
    assert_eq!(cache.used(), 0);
    let key = PageKey {
        generation: Sha256::digest(b"g"),
        checkpoint: false,
        page: 1,
    };
    let reservation = cache.reserve(4351).unwrap();
    assert!(matches!(
        cache.insert_page(key, vec![0; 4096], 4096, reservation),
        Err(RuntimeError::ResourceExhausted(m)) if m == "page allocation exceeded reservation"
    ));
    assert_eq!(cache.used(), 0);
}

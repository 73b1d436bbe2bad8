use mit_objects::ObjectError;
use mit_objects::blob::Blob;
use mit_objects::store::Store;

#[test]
fn test_save_load_round_trip() {
    let mut store = Store::new();
    let content = b"any content at all".to_vec();
    let hash = store.save(content.clone()).unwrap();
    let back = store.load(&hash).unwrap();
    assert_eq!(back, content);
}

#[test]
fn test_save_idempotent() {
    let mut store = Store::new();
    let content = b"saved twice".to_vec();
    let first = store.save(content.clone()).unwrap();
    let n = store.num_objects();
    let second = store.save(content.clone()).unwrap();
    assert_eq!(first, second);
    assert_eq!(store.num_objects(), n);
    assert_eq!(store.load(&first).unwrap(), content);
}

#[test]
fn test_contains_tracks_saves() {
    let mut store = Store::new();
    let h = store.save(b"present".to_vec()).unwrap();
    assert!(store.contains(&h));
    let elsewhere = Store::new().save(b"absent".to_vec()).unwrap();
    assert!(!store.contains(&elsewhere));
}

#[test]
fn test_load_missing_is_store_miss() {
    let store = Store::new();
    let h = Store::new().save(b"somewhere else".to_vec()).unwrap();
    match store.load(&h) {
        Err(ObjectError::StoreMiss) => {}
        _ => panic!("loading an absent hash must be a store miss"),
    }
}

#[test]
fn test_hash_exact_values() {
    let mut store = Store::new();
    // FNV-1a of the empty input is the offset basis.
    let empty = Blob::new(&mut store, Vec::new()).unwrap();
    assert_eq!(empty.get_hash().value, 0xcbf29ce484222325);
    let hello = Blob::new(&mut store, b"hello".to_vec()).unwrap();
    assert_eq!(hello.get_hash().value, 0xa430d84680aabd0b);
    assert_eq!(hello.get_hash().to_hex(), b"b0dbaa08648d034a".to_vec());
}

#[test]
fn test_blob_new_load_restore() {
    let mut store = Store::new();
    let content = b"file body".to_vec();
    let blob = Blob::new(&mut store, content.clone()).unwrap();
    assert_eq!(blob.restore(), content);

    let loaded = Blob::load(&store, &blob.get_hash()).unwrap();
    assert_eq!(loaded.get_hash(), blob.get_hash());
    assert_eq!(loaded.restore(), content);
}

#[test]
fn test_blob_save_idempotent() {
    let mut store = Store::new();
    let blob = Blob::new(&mut store, b"persist me".to_vec()).unwrap();
    let n = store.num_objects();
    let h = blob.save(&mut store).unwrap();
    assert_eq!(h, blob.get_hash());
    assert_eq!(store.num_objects(), n);
}

#[test]
fn test_blob_load_missing_is_store_miss() {
    let store = Store::new();
    let h = Store::new().save(b"not here".to_vec()).unwrap();
    match Blob::load(&store, &h) {
        Err(ObjectError::StoreMiss) => {}
        _ => panic!("loading an absent blob must be a store miss"),
    }
}

#[test]
fn test_dedup_shares_identical_content() {
    let mut store = Store::new();
    let a = Blob::new(&mut store, b"same bytes".to_vec()).unwrap();
    let b = Blob::new(&mut store, b"same bytes".to_vec()).unwrap();
    assert_eq!(a.get_hash(), b.get_hash());
    assert_eq!(store.num_objects(), 1);
}

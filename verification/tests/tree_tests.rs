use mit_objects::blob::Blob;
use mit_objects::store::Store;
use mit_objects::tree::{EntryKind, TrackedFile, Tree};

fn file_of(path: &str, data: &str) -> TrackedFile {
    TrackedFile {
        path: path.as_bytes().to_vec(),
        mode: b"100644".to_vec(),
        data: data.as_bytes().to_vec(),
    }
}

fn two_files() -> Vec<TrackedFile> {
    vec![file_of("b.txt", "content of b"), file_of("mit_src/a.txt", "content of a")]
}

#[test]
fn test_new() {
    let mut store = Store::new();
    let files = two_files();
    let tree = Tree::new(&mut store, &files).unwrap();
    assert!(tree.entries.len() == 2);
    assert!(tree.hash.to_hex().len() != 0);
}

#[test]
fn test_load() {
    let mut store = Store::new();
    let files = two_files();
    let tree = Tree::new(&mut store, &files).unwrap();
    let tree_hash = tree.get_hash();

    let loaded_tree = Tree::load(&store, &tree_hash).unwrap();
    assert!(loaded_tree.entries.len() == tree.entries.len());
    assert!(tree.entries[0].name == loaded_tree.entries[0].name);
    assert!(tree.entries[1].name == loaded_tree.entries[1].name);
}

#[test]
fn test_get_recursive_file_entries() {
    let mut store = Store::new();
    let files = two_files();
    let tree = Tree::new(&mut store, &files).unwrap();
    let tree_hash = tree.get_hash();

    let loaded_tree = Tree::load(&store, &tree_hash).unwrap();
    let listed = loaded_tree.get_recursive_file_entries(&store).unwrap();
    assert!(listed.len() == files.len());
    assert!(listed[0] == b"b.txt".to_vec());
    assert!(listed[1] == b"mit_src/a.txt".to_vec());
}

#[test]
fn test_get_recursive_blobs() {
    let mut store = Store::new();
    let files = two_files();
    let mut test_blobs = vec![];
    for f in files.iter() {
        let blob = Blob::new(&mut store, f.data.clone()).unwrap();
        test_blobs.push(blob);
    }
    let tree = Tree::new(&mut store, &files).unwrap();
    let tree_hash = tree.get_hash();

    let loaded_tree = Tree::load(&store, &tree_hash).unwrap();
    let blobs = loaded_tree.get_recursive_blobs(&store).unwrap();
    assert!(blobs.len() == files.len());
    assert!(blobs.contains(&(b"b.txt".to_vec(), test_blobs[0].get_hash())));
    assert!(blobs.contains(&(b"mit_src/a.txt".to_vec(), test_blobs[1].get_hash())));
}

#[test]
fn test_example_structure() {
    let mut store = Store::new();
    let files = two_files();
    let tree = Tree::new(&mut store, &files).unwrap();

    assert_eq!(tree.entries.len(), 2);
    assert_eq!(tree.entries[0].kind, EntryKind::Blob);
    assert_eq!(tree.entries[0].name, b"b.txt".to_vec());
    assert_eq!(tree.entries[1].kind, EntryKind::Tree);
    assert_eq!(tree.entries[1].name, b"mit_src".to_vec());

    let sub = Tree::load(&store, &tree.entries[1].object_hash).unwrap();
    assert_eq!(sub.entries.len(), 1);
    assert_eq!(sub.entries[0].kind, EntryKind::Blob);
    assert_eq!(sub.entries[0].name, b"a.txt".to_vec());

    let listed = tree.get_recursive_file_entries(&store).unwrap();
    assert_eq!(listed, vec![b"b.txt".to_vec(), b"mit_src/a.txt".to_vec()]);
}

#[test]
fn test_reload_keeps_entries_exactly() {
    let mut store = Store::new();
    let files = vec![
        file_of("b.txt", "one"),
        file_of("mit_src/a.txt", "two"),
        file_of("mit_src/c.txt", "three"),
    ];
    let tree = Tree::new(&mut store, &files).unwrap();
    let loaded = Tree::load(&store, &tree.get_hash()).unwrap();
    assert_eq!(loaded.entries.len(), tree.entries.len());
    for (a, b) in tree.entries.iter().zip(loaded.entries.iter()) {
        assert_eq!(a.kind, b.kind);
        assert_eq!(a.mode, b.mode);
        assert_eq!(a.object_hash, b.object_hash);
        assert_eq!(a.name, b.name);
    }
}

#[test]
fn test_merkle_propagation() {
    let mut store1 = Store::new();
    let mut store2 = Store::new();
    let files1 = vec![file_of("b.txt", "stable"), file_of("mit_src/a.txt", "before")];
    let files2 = vec![file_of("b.txt", "stable"), file_of("mit_src/a.txt", "after")];
    let tree1 = Tree::new(&mut store1, &files1).unwrap();
    let tree2 = Tree::new(&mut store2, &files2).unwrap();

    let blob1 = Blob::new(&mut store1, b"before".to_vec()).unwrap();
    let blob2 = Blob::new(&mut store2, b"after".to_vec()).unwrap();
    assert_ne!(blob1.get_hash(), blob2.get_hash());

    // The changed leaf changes the subdirectory tree's hash and the root's.
    assert_ne!(tree1.entries[1].object_hash, tree2.entries[1].object_hash);
    assert_ne!(tree1.get_hash(), tree2.get_hash());
    // The untouched sibling entry keeps its name and hash.
    assert_eq!(tree1.entries[0].name, tree2.entries[0].name);
    assert_eq!(tree1.entries[0].object_hash, tree2.entries[0].object_hash);
}

#[test]
fn test_deep_nesting_round_trip() {
    let mut store = Store::new();
    let files = vec![
        file_of("top.txt", "t"),
        file_of("a/b/c.txt", "deep"),
        file_of("a/b/d.txt", "deeper"),
        file_of("a/e.txt", "mid"),
    ];
    let tree = Tree::new(&mut store, &files).unwrap();
    let listed = tree.get_recursive_file_entries(&store).unwrap();
    assert_eq!(
        listed,
        vec![
            b"top.txt".to_vec(),
            b"a/b/c.txt".to_vec(),
            b"a/b/d.txt".to_vec(),
            b"a/e.txt".to_vec(),
        ]
    );
}

#[test]
fn test_empty_input_builds_empty_tree() {
    let mut store = Store::new();
    let files: Vec<TrackedFile> = Vec::new();
    let tree = Tree::new(&mut store, &files).unwrap();
    assert_eq!(tree.entries.len(), 0);
    let listed = tree.get_recursive_file_entries(&store).unwrap();
    assert!(listed.is_empty());
}

#[test]
fn test_name_with_space_survives_reload() {
    let mut store = Store::new();
    let files = vec![file_of("a name with spaces.txt", "x")];
    let tree = Tree::new(&mut store, &files).unwrap();
    let loaded = Tree::load(&store, &tree.get_hash()).unwrap();
    assert_eq!(loaded.entries[0].name, b"a name with spaces.txt".to_vec());
    let listed = loaded.get_recursive_file_entries(&store).unwrap();
    assert_eq!(listed, vec![b"a name with spaces.txt".to_vec()]);
}

#[test]
fn test_tree_save_idempotent() {
    let mut store = Store::new();
    let files = two_files();
    let mut tree = Tree::new(&mut store, &files).unwrap();
    let n = store.num_objects();
    let first = tree.get_hash();
    let second = tree.save(&mut store).unwrap();
    assert_eq!(first, second);
    assert_eq!(store.num_objects(), n);
}

#[test]
fn test_tree_load_missing_and_malformed() {
    let mut store = Store::new();
    let absent = Blob::new(&mut Store::new(), b"never stored here".to_vec())
        .unwrap()
        .get_hash();
    match Tree::load(&store, &absent) {
        Err(mit_objects::ObjectError::StoreMiss) => {}
        _ => panic!("a missing hash must be a store miss"),
    }
    let garbage = store.save(b"not an entry list".to_vec()).unwrap();
    match Tree::load(&store, &garbage) {
        Err(mit_objects::ObjectError::FormatError) => {}
        _ => panic!("unparseable content must be a format error"),
    }
}

use dashmap::DashMap;
use merkle::codec::encode_entry;
use merkle::entry::{Commit, Entry};
use merkle::hash::{hash_blob, hash_commit, hash_tree};
use merkle::tree::{Node, NodeKind, Tree};
use merkle::merkle_storage::{ContextKey, MerkleError, MerkleStorage};

fn fresh() -> MerkleStorage {
    MerkleStorage::new(DashMap::new())
}

fn path(segments: &[&str]) -> ContextKey {
    segments.iter().map(|s| s.to_string()).collect()
}

fn run_history(storage: &mut MerkleStorage) -> Vec<[u8; 32]> {
    let mut hashes = Vec::new();
    storage.set(&path(&["a", "b"]), &vec![1, 2]).unwrap();
    storage.set(&path(&["c"]), &vec![3]).unwrap();
    hashes.push(storage.commit(7, "me".to_string(), "first".to_string()).unwrap());
    storage.copy(&path(&["a"]), &path(&["d"])).unwrap();
    storage.delete(&path(&["c"])).unwrap();
    hashes.push(storage.commit(8, "me".to_string(), "second".to_string()).unwrap());
    hashes
}

#[test]
fn same_operations_give_same_commit_hashes() {
    let mut one = fresh();
    let mut two = fresh();
    let first = run_history(&mut one);
    let second = run_history(&mut two);
    assert_eq!(first, second);
    assert_ne!(first[0], first[1]);
}

#[test]
fn set_then_get_and_sibling_untouched() {
    let mut storage = fresh();
    storage.set(&path(&["a", "x"]), &vec![1]).unwrap();
    storage.set(&path(&["b", "y"]), &vec![2]).unwrap();
    assert_eq!(storage.get(&path(&["a", "x"])).unwrap(), vec![1]);
    assert_eq!(storage.get(&path(&["b", "y"])).unwrap(), vec![2]);
}

#[test]
fn deleting_last_key_prunes_intermediate_node() {
    let mut storage = fresh();
    storage.set(&path(&["data", "a", "x"]), &vec![1]).unwrap();
    storage.set(&path(&["b"]), &vec![2]).unwrap();
    storage.delete(&path(&["data", "a", "x"])).unwrap();
    assert!(storage.get_by_prefix(&path(&["data"])).unwrap().is_none());
    let all = storage.get_by_prefix(&vec![]).unwrap().unwrap();
    assert_eq!(all, vec![(path(&["b"]), vec![2])]);
    assert!(matches!(
        storage.get(&path(&["data", "a", "x"])),
        Err(MerkleError::ValueNotFound { .. })
    ));
}

#[test]
fn deleting_the_only_key_keeps_the_root() {
    let mut storage = fresh();
    storage.set(&path(&["a"]), &vec![1]).unwrap();
    let before = storage.get_staged_root_hash();
    storage.delete(&path(&["a"])).unwrap();
    assert_eq!(storage.get_staged_root_hash(), before);
    assert_eq!(storage.get(&path(&["a"])).unwrap(), vec![1]);
}

#[test]
fn delete_of_empty_key_changes_nothing() {
    let mut storage = fresh();
    storage.set(&path(&["a", "b"]), &vec![1]).unwrap();
    let before = storage.get_staged_root_hash();
    storage.delete(&vec![]).unwrap();
    assert_eq!(storage.get_staged_root_hash(), before);
}

#[test]
fn prefix_enumeration_of_working_tree() {
    let mut storage = fresh();
    storage.set(&path(&["data", "a", "x", "y"]), &vec![5, 6]).unwrap();
    storage.set(&path(&["data", "b", "x", "y"]), &vec![7, 8]).unwrap();
    storage.set(&path(&["data", "c"]), &vec![2, 5]).unwrap();
    storage.set(&path(&["adata", "b", "x", "y"]), &vec![12, 15]).unwrap();
    let all = storage.get_by_prefix(&vec![]).unwrap().unwrap();
    assert_eq!(
        all,
        vec![
            (path(&["adata", "b", "x", "y"]), vec![12, 15]),
            (path(&["data", "a", "x", "y"]), vec![5, 6]),
            (path(&["data", "b", "x", "y"]), vec![7, 8]),
            (path(&["data", "c"]), vec![2, 5]),
        ]
    );
    let data = storage.get_by_prefix(&path(&["data"])).unwrap().unwrap();
    assert_eq!(data.len(), 3);
    assert!(storage.get_by_prefix(&path(&["nothing"])).unwrap().is_none());
}

#[test]
fn copy_shares_the_subtree() {
    let mut storage = fresh();
    storage.set(&path(&["a", "b"]), &vec![4]).unwrap();
    storage.copy(&path(&["a"]), &path(&["z", "w"])).unwrap();
    assert_eq!(storage.get(&path(&["z", "w", "b"])).unwrap(), vec![4]);
    assert_eq!(storage.get(&path(&["a", "b"])).unwrap(), vec![4]);
}

#[test]
fn unknown_hashes_are_not_found() {
    let mut storage = fresh();
    storage.set(&path(&["a"]), &vec![1]).unwrap();
    let missing = [7u8; 32];
    assert!(matches!(storage.checkout(&missing), Err(MerkleError::EntryNotFound { .. })));
    assert!(matches!(
        storage.get_history(&missing, &path(&["a"])),
        Err(MerkleError::EntryNotFound { .. })
    ));
    assert!(matches!(
        storage.get_key_values_by_prefix(&missing, &vec![]),
        Err(MerkleError::EntryNotFound { .. })
    ));
}

#[test]
fn checkout_of_a_value_is_a_structure_mismatch() {
    let mut storage = fresh();
    storage.set(&path(&["a"]), &vec![1]).unwrap();
    storage.commit(0, "".to_string(), "".to_string()).unwrap();
    match storage.checkout(&hash_blob(&vec![1])) {
        Err(MerkleError::FoundUnexpectedStructure { sought, found }) => {
            assert_eq!(sought, "commit");
            assert_eq!(found, "blob");
        }
        other => panic!("unexpected result {:?}", other),
    }
}

#[test]
fn value_and_tree_mismatches() {
    let mut storage = fresh();
    storage.set(&path(&["a", "b"]), &vec![1]).unwrap();
    match storage.get(&path(&["a"])) {
        Err(MerkleError::ValueIsNotABlob { key }) => assert_eq!(key, "a"),
        other => panic!("unexpected result {:?}", other),
    }
    match storage.get(&path(&["a", "b", "c"])) {
        Err(MerkleError::ValueNotFound { key }) => assert_eq!(key, "a/b/c"),
        other => panic!("unexpected result {:?}", other),
    }
}

#[test]
fn value_in_the_way_is_replaced_by_a_tree() {
    let mut storage = fresh();
    storage.set(&path(&["a"]), &vec![1]).unwrap();
    storage.set(&path(&["a", "b"]), &vec![2]).unwrap();
    assert_eq!(storage.get(&path(&["a", "b"])).unwrap(), vec![2]);
    assert!(matches!(storage.get(&path(&["a"])), Err(MerkleError::ValueIsNotABlob { .. })));
}

#[test]
fn commit_checkout_round_trip() {
    let mut storage = fresh();
    storage.set(&path(&["k", "1"]), &vec![1]).unwrap();
    storage.set(&path(&["k", "2"]), &vec![2]).unwrap();
    let first = storage.commit(0, "a".to_string(), "m".to_string()).unwrap();
    storage.set(&path(&["k", "1"]), &vec![9]).unwrap();
    storage.delete(&path(&["k", "2"])).unwrap();
    storage.commit(1, "a".to_string(), "n".to_string()).unwrap();
    storage.set(&path(&["k", "3"]), &vec![3]).unwrap();
    storage.checkout(&first).unwrap();
    assert_eq!(storage.get(&path(&["k", "1"])).unwrap(), vec![1]);
    assert_eq!(storage.get(&path(&["k", "2"])).unwrap(), vec![2]);
    assert!(storage.get(&path(&["k", "3"])).is_err());
    assert_eq!(storage.get_last_commit_hash(), Some(first));
}

#[test]
fn empty_commits_are_still_made() {
    let mut storage = fresh();
    let first = storage.commit(0, "".to_string(), "".to_string()).unwrap();
    let second = storage.commit(0, "".to_string(), "".to_string()).unwrap();
    assert_ne!(first, second);
    assert_eq!(storage.get_last_commit_hash(), Some(second));
}

#[test]
fn pruning_drops_what_only_old_commits_reach() {
    let mut storage = fresh();
    storage.set(&path(&["a"]), &vec![1]).unwrap();
    let first = storage.commit(0, "".to_string(), "".to_string()).unwrap();
    storage.set(&path(&["a"]), &vec![2]).unwrap();
    let second = storage.commit(0, "".to_string(), "".to_string()).unwrap();
    assert_eq!(storage.get_merkle_stats().unwrap().db_stats.keys, 6);
    storage.clear_previous_commits().unwrap();
    assert_eq!(storage.get_merkle_stats().unwrap().db_stats.keys, 3);
    assert_eq!(storage.get_history(&second, &path(&["a"])).unwrap(), vec![2]);
    assert!(matches!(
        storage.get_history(&first, &path(&["a"])),
        Err(MerkleError::EntryNotFound { .. })
    ));
    storage.set(&path(&["b"]), &vec![3]).unwrap();
    let third = storage.commit(0, "".to_string(), "".to_string()).unwrap();
    assert_eq!(storage.get_history(&third, &path(&["a"])).unwrap(), vec![2]);
}

#[test]
fn pruning_keeps_what_the_working_tree_uses() {
    let mut storage = fresh();
    storage.set(&path(&["a", "x"]), &vec![1]).unwrap();
    storage.commit(0, "".to_string(), "".to_string()).unwrap();
    storage.set(&path(&["b"]), &vec![2]).unwrap();
    storage.clear_previous_commits().unwrap();
    assert_eq!(storage.get(&path(&["a", "x"])).unwrap(), vec![1]);
    assert_eq!(storage.get(&path(&["b"])).unwrap(), vec![2]);
}

#[test]
fn stats_count_staged_and_tree_entries() {
    let mut storage = fresh();
    let stats = storage.get_merkle_stats().unwrap();
    assert_eq!(stats.map_stats.staged_area_elems, 0);
    assert_eq!(stats.map_stats.current_tree_elems, 0);
    assert_eq!(stats.db_stats.keys, 0);
    assert_eq!(stats.perf_stats.avg_set_exec_time_ns, 0);
    storage.set(&path(&["a"]), &vec![1]).unwrap();
    storage.set(&path(&["b", "c"]), &vec![2]).unwrap();
    let stats = storage.get_merkle_stats().unwrap();
    assert_eq!(stats.map_stats.current_tree_elems, 2);
    // the empty tree, two values, the root of the first set, and the two trees of the second
    assert_eq!(stats.map_stats.staged_area_elems, 6);
    storage.commit(0, "".to_string(), "".to_string()).unwrap();
    let stats = storage.get_merkle_stats().unwrap();
    assert_eq!(stats.map_stats.staged_area_elems, 0);
    // the commit, its root, the subtree and the two values; the first root
    // and the empty tree are reached from nothing and stay out
    assert_eq!(stats.db_stats.keys, 5);
}

fn store_with(entries: Vec<([u8; 32], Entry)>) -> DashMap<[u8; 32], Vec<u8>> {
    let db = DashMap::new();
    for (h, e) in entries {
        db.insert(h, encode_entry(&e));
    }
    db
}

#[test]
fn unloadable_entry_below_prefix_is_an_error() {
    let mut inner = Tree::new();
    inner.insert("x".to_string(), Node { node_kind: NodeKind::Leaf, entry_hash: [9; 32] });
    let mut root = Tree::new();
    root.insert("a".to_string(), Node { node_kind: NodeKind::NonLeaf, entry_hash: hash_tree(&inner) });
    let commit = Commit {
        parent_commit_hash: None,
        root_hash: hash_tree(&root),
        time: 0,
        author: "".to_string(),
        message: "".to_string(),
    };
    let commit_hash = hash_commit(&commit);
    let db = store_with(vec![
        (hash_tree(&inner), Entry::Tree(inner.clone())),
        (hash_tree(&root), Entry::Tree(root.clone())),
        (commit_hash, Entry::Commit(commit)),
    ]);
    let storage = MerkleStorage::new(db);
    match storage.get_key_values_by_prefix(&commit_hash, &vec![]) {
        Err(MerkleError::EntryNotFound { hash }) => assert_eq!(hash, [9; 32]),
        other => panic!("unexpected result {:?}", other),
    }
}

#[test]
fn commit_under_a_foreign_hash_is_not_found() {
    let root = Tree::new();
    let commit = Commit {
        parent_commit_hash: None,
        root_hash: hash_tree(&root),
        time: 0,
        author: "".to_string(),
        message: "".to_string(),
    };
    let wrong = [5u8; 32];
    let db = store_with(vec![(hash_tree(&root), Entry::Tree(root.clone())), (wrong, Entry::Commit(commit))]);
    let mut storage = MerkleStorage::new(db);
    assert!(matches!(storage.checkout(&wrong), Err(MerkleError::EntryNotFound { .. })));
    assert_eq!(storage.get_last_commit_hash(), None);
}

#[test]
fn checkout_makes_the_commit_the_last_one() {
    let mut storage = fresh();
    storage.set(&path(&["a"]), &vec![1]).unwrap();
    let first = storage.commit(0, "".to_string(), "".to_string()).unwrap();
    storage.set(&path(&["a"]), &vec![2]).unwrap();
    storage.commit(0, "".to_string(), "".to_string()).unwrap();
    storage.set(&path(&["b"]), &vec![3]).unwrap();
    storage.checkout(&first).unwrap();
    assert_eq!(storage.get_last_commit_hash(), Some(first));
    assert_eq!(storage.get_merkle_stats().unwrap().map_stats.staged_area_elems, 0);
}

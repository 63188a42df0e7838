use dashmap::DashMap;
use merkle::merkle_storage::{ContextKey, MerkleError, MerkleStorage};

fn get_storage() -> MerkleStorage {
    MerkleStorage::new(DashMap::new())
}

fn key(segments: &[&str]) -> ContextKey {
    segments.iter().map(|s| s.to_string()).collect()
}

#[test]
fn it_works() {
    assert_eq!(2 + 2, 4);
}

#[test]
fn test_tree_hash() {
    let mut storage = get_storage();
    storage.set(&vec!["a".to_string(), "foo".to_string()], &vec![97, 98, 99]).unwrap();
    storage.set(&vec!["b".to_string(), "boo".to_string()], &vec![97, 98]).unwrap();
    storage.set(&vec!["a".to_string(), "aaa".to_string()], &vec![97, 98, 99, 100]).unwrap();
    storage.set(&vec!["x".to_string()], &vec![97]).unwrap();
    storage
        .set(&vec!["one".to_string(), "two".to_string(), "three".to_string()], &vec![97])
        .unwrap();
    let hash = storage.get_staged_root_hash();

    assert_eq!([0xDB, 0xAE, 0xD7, 0xB6], hash[0..4]);
}

#[test]
fn test_commit_hash() {
    let mut storage = get_storage();
    storage.set(&vec!["a".to_string()], &vec![97, 98, 99]).unwrap();

    let commit = storage.commit(0, "Tezos".to_string(), "Genesis".to_string());

    assert_eq!([0xCF, 0x95, 0x18, 0x33], commit.unwrap()[0..4]);

    storage.set(&vec!["data".to_string(), "x".to_string()], &vec![97]).unwrap();
    let commit = storage.commit(0, "Tezos".to_string(), "".to_string());

    assert_eq!([0xCA, 0x7B, 0xC7, 0x02], commit.unwrap()[0..4]);
}

#[test]
fn test_multiple_commit_hash() {
    let mut storage = get_storage();
    let _commit = storage.commit(0, "Tezos".to_string(), "Genesis".to_string());

    storage
        .set(&vec!["data".to_string(), "a".to_string(), "x".to_string()], &vec![97])
        .unwrap();
    storage
        .copy(&vec!["data".to_string(), "a".to_string()], &vec!["data".to_string(), "b".to_string()])
        .unwrap();
    storage
        .delete(&vec!["data".to_string(), "b".to_string(), "x".to_string()])
        .unwrap();
    let commit = storage.commit(0, "Tezos".to_string(), "".to_string());
    assert_eq!([0x9B, 0xB0, 0x0D, 0x6E], commit.unwrap()[0..4]);
}

#[test]
fn get_test() {
    let key_abc = &key(&["a", "b", "c"]);
    let key_abx = &key(&["a", "b", "x"]);
    let key_eab = &key(&["e", "a", "b"]);
    let key_az = &key(&["a", "z"]);
    let key_d = &key(&["d"]);

    let mut storage = get_storage();

    storage.set(key_abc, &vec![1u8, 2u8]).unwrap();
    storage.set(key_abx, &vec![3u8]).unwrap();
    assert_eq!(storage.get(key_abc).unwrap(), vec![1u8, 2u8]);
    assert_eq!(storage.get(key_abx).unwrap(), vec![3u8]);
    let commit1 = storage.commit(0, "".to_string(), "".to_string()).unwrap();

    storage.set(key_az, &vec![4u8]).unwrap();
    storage.set(key_abx, &vec![5u8]).unwrap();
    storage.set(key_d, &vec![6u8]).unwrap();
    storage.set(key_eab, &vec![7u8]).unwrap();
    assert_eq!(storage.get(key_abx).unwrap(), vec![5u8]);
    let commit2 = storage.commit(0, "".to_string(), "".to_string()).unwrap();

    assert_eq!(storage.get_history(&commit1, key_abc).unwrap(), vec![1u8, 2u8]);
    assert_eq!(storage.get_history(&commit1, key_abx).unwrap(), vec![3u8]);

    storage.clear_previous_commits().unwrap();
    // the first commit was pruned: only what the last commit reaches is kept
    assert!(matches!(
        storage.get_history(&commit1, key_abc),
        Err(MerkleError::EntryNotFound { .. })
    ));
    assert_eq!(storage.get_history(&commit2, key_abc).unwrap(), vec![1u8, 2u8]);
    assert_eq!(storage.get_history(&commit2, key_abx).unwrap(), vec![5u8]);
    assert_eq!(storage.get_history(&commit2, key_az).unwrap(), vec![4u8]);
    assert_eq!(storage.get_history(&commit2, key_d).unwrap(), vec![6u8]);
    assert_eq!(storage.get_history(&commit2, key_eab).unwrap(), vec![7u8]);
}

#[test]
fn garbage_test() {
    let key_abc = &key(&["a", "b", "c"]);
    let key_abx = &key(&["a", "b", "x"]);
    let key_eab = &key(&["e", "a", "b"]);
    let key_az = &key(&["a", "z"]);
    let key_d = &key(&["d"]);
    let key_h = &key(&["h"]);
    let key_z = &key(&["z"]);

    let mut storage = get_storage();

    storage.set(key_h, &vec![1u8]).unwrap();
    storage.set(key_z, &vec![8u8]).unwrap();
    storage.set(key_abc, &vec![1u8, 2u8]).unwrap();
    storage.set(key_abx, &vec![3u8]).unwrap();
    assert_eq!(storage.get(key_abc).unwrap(), vec![1u8, 2u8]);
    assert_eq!(storage.get(key_abx).unwrap(), vec![3u8]);
    let _commit1 = storage.commit(0, "".to_string(), "".to_string()).unwrap();
    storage.set(key_az, &vec![4u8]).unwrap();
    storage.set(key_abx, &vec![5u8]).unwrap();
    storage.set(key_d, &vec![6u8]).unwrap();
    storage.set(key_eab, &vec![7u8]).unwrap();
    assert_eq!(storage.get(key_abx).unwrap(), vec![5u8]);
    let _commit2 = storage.commit(0, "".to_string(), "2".to_string()).unwrap();
    println!("Before GC: {:#?}", storage.get_merkle_stats());
    storage.clear_previous_commits().unwrap();
    println!("After GC: {:#?}", storage.get(key_abc));
    println!("After GC: {:#?}", storage.get_merkle_stats());
}

#[test]
fn test_copy() {
    let mut storage = get_storage();
    let key_abc = &key(&["a", "b", "c"]);
    storage.set(key_abc, &vec![1 as u8]).unwrap();
    storage.copy(&vec!["a".to_string()], &vec!["z".to_string()]).unwrap();

    assert_eq!(
        vec![1 as u8],
        storage.get(&vec!["z".to_string(), "b".to_string(), "c".to_string()]).unwrap()
    );
}

#[test]
fn test_delete() {
    let mut storage = get_storage();
    let key_abc = &key(&["a", "b", "c"]);
    let key_abx = &key(&["a", "b", "x"]);
    storage.set(key_abc, &vec![2 as u8]).unwrap();
    storage.set(key_abx, &vec![3 as u8]).unwrap();
    storage.delete(key_abx).unwrap();
    let commit1 = storage.commit(0, "".to_string(), "".to_string()).unwrap();

    assert!(storage.get_history(&commit1, &key_abx).is_err());
}

#[test]
fn test_deleted_entry_available() {
    let mut storage = get_storage();
    let key_abc = &key(&["a", "b", "c"]);
    storage.set(key_abc, &vec![2 as u8]).unwrap();
    let commit1 = storage.commit(0, "".to_string(), "".to_string()).unwrap();
    storage.delete(key_abc).unwrap();
    let _commit2 = storage.commit(0, "".to_string(), "".to_string()).unwrap();

    assert_eq!(vec![2 as u8], storage.get_history(&commit1, &key_abc).unwrap());
}

#[test]
fn test_delete_in_separate_commit() {
    let mut storage = get_storage();
    let key_abc = &key(&["a", "b", "c"]);
    let key_abx = &key(&["a", "b", "x"]);
    storage.set(key_abc, &vec![2 as u8]).unwrap();
    storage.set(key_abx, &vec![3 as u8]).unwrap();
    storage.commit(0, "".to_string(), "".to_string()).unwrap();

    storage.delete(key_abx).unwrap();
    let commit2 = storage.commit(0, "".to_string(), "".to_string()).unwrap();

    assert!(storage.get_history(&commit2, &key_abx).is_err());
}

#[test]
fn test_checkout() {
    let key_abc = &key(&["a", "b", "c"]);
    let key_abx = &key(&["a", "b", "x"]);
    let mut storage = get_storage();

    storage.set(key_abc, &vec![1u8]).unwrap();
    storage.set(key_abx, &vec![2u8]).unwrap();
    let commit1 = storage.commit(0, "".to_string(), "".to_string()).unwrap();

    storage.set(key_abc, &vec![3u8]).unwrap();
    storage.set(key_abx, &vec![4u8]).unwrap();
    let commit2 = storage.commit(0, "".to_string(), "".to_string()).unwrap();

    storage.checkout(&commit1).unwrap();
    assert_eq!(storage.get(&key_abc).unwrap(), vec![1u8]);
    assert_eq!(storage.get(&key_abx).unwrap(), vec![2u8]);
    // this set is wiped by the checkout below
    storage.set(key_abc, &vec![8u8]).unwrap();

    storage.checkout(&commit2).unwrap();
    assert_eq!(storage.get(&key_abc).unwrap(), vec![3u8]);
    assert_eq!(storage.get(&key_abx).unwrap(), vec![4u8]);
}

#[test]
fn test_persistence_over_reopens() {
    let key_abc = &key(&["a", "b", "c"]);
    let key_abx = &key(&["a", "b", "x"]);
    let mut storage = get_storage();
    storage.set(key_abc, &vec![2 as u8]).unwrap();
    storage.set(key_abx, &vec![3 as u8]).unwrap();
    let commit1 = storage.commit(0, "".to_string(), "".to_string()).unwrap();

    assert_eq!(vec![2 as u8], storage.get_history(&commit1, &key_abc).unwrap());
}

#[test]
fn test_get_errors() {
    let mut storage = get_storage();

    let res = storage.get(&vec![]);
    assert!(if let MerkleError::KeyEmpty = res.err().unwrap() { true } else { false });

    let res = storage.get(&vec!["a".to_string()]);
    assert!(if let MerkleError::ValueNotFound { .. } = res.err().unwrap() { true } else { false });
}

#[test]
fn test_get_context_tree_by_prefix() {
    let all_json = "[[[\"adata\",\"b\",\"x\",\"y\"],[12,15]],[[\"data\",\"a\",\"x\",\"y\"],[5,6]],[[\"data\",\"b\",\"x\",\"y\"],[7,8]],[[\"data\",\"c\"],[2,5]]]";
    let data_json = "[[[\"data\",\"a\",\"x\",\"y\"],[5,6]],[[\"data\",\"b\",\"x\",\"y\"],[7,8]],[[\"data\",\"c\"],[2,5]]]";

    let mut storage = get_storage();
    let _commit = storage.commit(0, "Tezos".to_string(), "Genesis".to_string());

    storage.set(&key(&["data", "a", "x"]), &vec![3, 4]).unwrap();
    storage.set(&key(&["data", "a"]), &vec![20, 30]).unwrap();
    storage.set(&key(&["data", "a", "x", "y"]), &vec![5, 6]).unwrap();
    storage.set(&key(&["data", "b", "x", "y"]), &vec![7, 8]).unwrap();
    storage.set(&key(&["data", "c"]), &vec![2, 5]).unwrap();
    storage.set(&key(&["adata", "b", "x", "y"]), &vec![12, 15]).unwrap();

    let commit = storage.commit(0, "Tezos".to_string(), "Genesis".to_string()).unwrap();

    let rv_all = storage.get_key_values_by_prefix(&commit, &vec![]).unwrap();
    let rv_data = storage.get_key_values_by_prefix(&commit, &vec!["data".to_string()]).unwrap();
    assert_eq!(all_json, serde_json::to_string(&rv_all.unwrap()).unwrap());
    assert_eq!(data_json, serde_json::to_string(&rv_data.unwrap()).unwrap());
}

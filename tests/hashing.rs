use merkle::codec::{decode_entry, encode_entry};
use merkle::entry::{Commit, Entry};
use merkle::hash::{hash_blob, hash_commit, hash_tree};
use merkle::tree::{Node, NodeKind, Tree};

fn insert(tree: &mut Tree, key: String, node: Node) {
    tree.insert(key, node);
}

fn leaf(byte: u8) -> Node {
    Node { node_kind: NodeKind::Leaf, entry_hash: [byte; 32] }
}

#[test]
fn blob_hash_depends_on_content_only() {
    assert_eq!(hash_blob(&vec![1, 2, 3]), hash_blob(&vec![1, 2, 3]));
    assert_ne!(hash_blob(&vec![1, 2, 3]), hash_blob(&vec![3, 2, 1]));
    assert_ne!(hash_blob(&vec![]), hash_blob(&vec![0]));
}

#[test]
fn tree_hash_ignores_insertion_order() {
    let mut one = Tree::new();
    insert(&mut one, "b".to_string(), leaf(2));
    insert(&mut one, "a".to_string(), leaf(1));
    let mut two = Tree::new();
    insert(&mut two, "a".to_string(), leaf(1));
    insert(&mut two, "b".to_string(), leaf(2));
    assert_eq!(hash_tree(&one), hash_tree(&two));
    let mut three = Tree::new();
    insert(&mut three, "a".to_string(), Node { node_kind: NodeKind::NonLeaf, entry_hash: [1; 32] });
    insert(&mut three, "b".to_string(), leaf(2));
    assert_ne!(hash_tree(&one), hash_tree(&three));
}

#[test]
fn commit_hash_covers_every_field() {
    let base = Commit {
        parent_commit_hash: None,
        root_hash: [3; 32],
        time: 5,
        author: "x".to_string(),
        message: "y".to_string(),
    };
    let same = Commit { author: "x".to_string(), message: "y".to_string(), ..base };
    let base = Commit { author: "x".to_string(), message: "y".to_string(), ..same };
    assert_eq!(hash_commit(&base), hash_commit(&same));
    let other_parent = Commit { parent_commit_hash: Some([0; 32]), author: "x".to_string(), message: "y".to_string(), ..base };
    let other_time = Commit { time: 6, author: "x".to_string(), message: "y".to_string(), ..base };
    let moved_text = Commit { author: "xy".to_string(), message: "".to_string(), ..base };
    assert_ne!(hash_commit(&base), hash_commit(&other_parent));
    assert_ne!(hash_commit(&base), hash_commit(&other_time));
    assert_ne!(hash_commit(&base), hash_commit(&moved_text));
}

#[test]
fn blob_bytes_round_trip() {
    let bytes = encode_entry(&Entry::Blob(vec![1, 2, 3]));
    assert_eq!(bytes, vec![1, 0, 0, 0, 0, 0, 0, 0, 3, 1, 2, 3]);
    match decode_entry(&bytes) {
        Ok(Entry::Blob(v)) => assert_eq!(v, vec![1, 2, 3]),
        _ => panic!("not a blob"),
    }
}

#[test]
fn tree_bytes_round_trip() {
    let mut tree = Tree::new();
    insert(&mut tree, "é".to_string(), leaf(9));
    insert(&mut tree, "a".to_string(), Node { node_kind: NodeKind::NonLeaf, entry_hash: [4; 32] });
    let bytes = encode_entry(&Entry::Tree(tree.clone()));
    assert_eq!(bytes[0], 0);
    match decode_entry(&bytes) {
        Ok(Entry::Tree(back)) => {
            assert_eq!(back.len(), 2);
            assert_eq!(hash_tree(&back), hash_tree(&tree));
        }
        _ => panic!("not a tree"),
    }
}

#[test]
fn commit_bytes_round_trip() {
    let commit = Commit {
        parent_commit_hash: Some([8; 32]),
        root_hash: [6; 32],
        time: 99,
        author: "Tezos".to_string(),
        message: "Genesis".to_string(),
    };
    let bytes = encode_entry(&Entry::Commit(Commit { author: "Tezos".to_string(), message: "Genesis".to_string(), ..commit }));
    match decode_entry(&bytes) {
        Ok(Entry::Commit(back)) => {
            assert_eq!(back.parent_commit_hash, Some([8; 32]));
            assert_eq!(back.root_hash, [6; 32]);
            assert_eq!(back.time, 99);
            assert_eq!(back.author, "Tezos");
            assert_eq!(back.message, "Genesis");
            assert_eq!(hash_commit(&back), hash_commit(&commit));
        }
        _ => panic!("not a commit"),
    }
}

#[test]
fn malformed_bytes_are_rejected() {
    assert!(decode_entry(&[]).is_err());
    assert!(decode_entry(&[1, 0, 0, 0, 0, 0, 0, 0, 3, 1, 2]).is_err());
    assert!(decode_entry(&[7, 0, 0, 0, 0, 0, 0, 0, 0]).is_err());
    // a key that is not UTF-8
    let mut bad = vec![0, 0, 0, 0, 0, 0, 0, 0, 1, 1, 0, 0, 0, 0, 0, 0, 0, 1, 0xff];
    bad.extend_from_slice(&[0u8; 32]);
    assert!(decode_entry(&bad).is_err());
}

use merkle_tree::{HashStrategy, Leaf, Sha256Hasher};

#[test]
fn test_leaf_hash_deterministic() {
    let l1 = Leaf::new(b"hello", 0);
    let l2 = Leaf::new(b"hello", 1);
    assert_eq!(l1.hash(), l2.hash()); // same data = same hash
}

#[test]
fn test_leaf_different_data() {
    let l1 = Leaf::new(b"hello", 0);
    let l2 = Leaf::new(b"world", 0);
    assert_ne!(l1.hash(), l2.hash());
}

#[test]
fn leaf_hash_is_domain_separated() {
    let leaf = Leaf::new(b"hello", 3);
    assert_eq!(*leaf.hash(), Sha256Hasher::hash(b"\x00hello"));
    assert_ne!(*leaf.hash(), Sha256Hasher::hash(b"hello"));
    assert_eq!(leaf.index(), 3);
}

#[test]
fn leaf_from_hash_keeps_parts() {
    let h = Sha256Hasher::hash(b"x");
    let leaf = Leaf::from_hash(h, 7);
    assert_eq!(*leaf.hash(), h);
    assert_eq!(leaf.index(), 7);
}

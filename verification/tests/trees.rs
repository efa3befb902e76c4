use merkle_tree::{HashStrategy, MerkleTree, Sha256Hasher};

#[test]
fn test_empty_tree() {
    let tree: MerkleTree = MerkleTree::new(&[]);
    let _root = tree.root();
    // Just check it doesn't panic
    assert_eq!(tree.leaf_count(), 0);
}

#[test]
fn test_single_leaf() {
    let leaves: Vec<Vec<u8>> = vec![b"hello".to_vec()];
    let slices: Vec<&[u8]> = leaves.iter().map(|d| d.as_slice()).collect();
    let tree: MerkleTree = MerkleTree::new(&slices);
    let proof = tree.inclusion_proof(0);
    assert!(proof.verify_data(&tree.root(), &leaves[0]));
}

#[test]
fn test_two_leaves() {
    let leaves: Vec<Vec<u8>> = vec![b"a".to_vec(), b"b".to_vec()];
    let slices: Vec<&[u8]> = leaves.iter().map(|d| d.as_slice()).collect();
    let tree: MerkleTree = MerkleTree::new(&slices);
    assert!(tree.inclusion_proof(0).verify_data(&tree.root(), &leaves[0]));
    assert!(tree.inclusion_proof(1).verify_data(&tree.root(), &leaves[1]));
}

#[test]
fn test_four_leaves() {
    let leaves: Vec<Vec<u8>> = vec![
        b"a".to_vec(), b"b".to_vec(), b"c".to_vec(), b"d".to_vec(),
    ];
    let slices: Vec<&[u8]> = leaves.iter().map(|d| d.as_slice()).collect();
    let tree: MerkleTree = MerkleTree::new(&slices);
    for i in 0..4 {
        assert!(tree.inclusion_proof(i).verify_data(&tree.root(), &leaves[i]));
    }
}

#[test]
fn test_tree_height() {
    let leaves: Vec<Vec<u8>> = vec![b"a".to_vec(), b"b".to_vec(), b"c".to_vec(), b"d".to_vec()];
    let slices: Vec<&[u8]> = leaves.iter().map(|d| d.as_slice()).collect();
    let tree: MerkleTree = MerkleTree::new(&slices);
    assert_eq!(tree.height(), 3); // leaf level + 2 internal levels
}

#[test]
fn test_root_deterministic() {
    let leaves: Vec<Vec<u8>> = vec![b"a".to_vec(), b"b".to_vec()];
    let slices: Vec<&[u8]> = leaves.iter().map(|d| d.as_slice()).collect();
    let t1: MerkleTree = MerkleTree::new(&slices);
    let t2: MerkleTree = MerkleTree::new(&slices);
    assert_eq!(t1.root(), t2.root());
}

#[test]
fn empty_tree_root_is_zero() {
    let tree: MerkleTree = MerkleTree::new(&[]);
    assert_eq!(tree.root(), [0u8; 32]);
    assert_eq!(tree.height(), 1);
    assert_eq!(tree.leaf_hash(0), None);
}

#[test]
fn three_leaf_root_duplicates_last_node() {
    let tree: MerkleTree = MerkleTree::new(&[b"x".as_slice(), b"y".as_slice(), b"z".as_slice()]);
    let x = Sha256Hasher::hash(b"x");
    let y = Sha256Hasher::hash(b"y");
    let z = Sha256Hasher::hash(b"z");
    let left = Sha256Hasher::hash_pair(&x, &y);
    let right = Sha256Hasher::hash_pair(&z, &z);
    assert_eq!(tree.root(), Sha256Hasher::hash_pair(&left, &right));
    assert_eq!(tree.height(), 3);
    assert_eq!(tree.levels[1], vec![left, right]);
}

#[test]
fn single_leaf_root_is_leaf_hash() {
    let tree: MerkleTree = MerkleTree::new(&[b"only".as_slice()]);
    assert_eq!(tree.root(), Sha256Hasher::hash(b"only"));
    assert_eq!(tree.height(), 1);
}

#[test]
fn leaf_hash_lookup() {
    let tree: MerkleTree = MerkleTree::new(&[b"a".as_slice(), b"b".as_slice()]);
    assert_eq!(tree.leaf_hash(1), Some(&Sha256Hasher::hash(b"b")));
    assert_eq!(tree.leaf_hash(2), None);
}

#[test]
fn blake3_tree_differs_from_sha256_tree() {
    let data = [b"a".as_slice(), b"b".as_slice()];
    let sha: MerkleTree = MerkleTree::new(&data);
    let blake: MerkleTree<merkle_tree::Blake3Hasher> = MerkleTree::new(&data);
    assert_ne!(sha.root(), blake.root());
    assert!(blake.inclusion_proof(1).verify_data(&blake.root(), b"b"));
}

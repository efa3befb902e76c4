use merkle_tree::{ConsistencyProof, HashStrategy, MerkleTree, Sha256Hasher};

const A: &[u8] = b"a";
const B: &[u8] = b"b";
const C: &[u8] = b"c";
const D: &[u8] = b"d";

#[test]
fn consistency_same_tree() {
    let leaves: Vec<&[u8]> = vec![A, B, C, D];
    let proof: ConsistencyProof = ConsistencyProof::generate(&leaves, &leaves).unwrap();
    let tree: MerkleTree = MerkleTree::new(&leaves);
    assert!(proof.verify(&tree.root(), &tree.root()));
}

#[test]
fn consistency_extended_tree() {
    let old: Vec<&[u8]> = vec![A, B];
    let new: Vec<&[u8]> = vec![A, B, C, D];
    let proof: ConsistencyProof = ConsistencyProof::generate(&old, &new).unwrap();
    let old_tree: MerkleTree = MerkleTree::new(&old);
    let new_tree: MerkleTree = MerkleTree::new(&new);
    assert!(proof.verify(&old_tree.root(), &new_tree.root()));
}

#[test]
fn consistency_empty_old_fails() {
    let old: Vec<&[u8]> = vec![];
    let new: Vec<&[u8]> = vec![A];
    assert!(ConsistencyProof::<Sha256Hasher>::generate(&old, &new).is_none());
}

#[test]
fn consistency_old_larger_than_new_fails() {
    let old: Vec<&[u8]> = vec![A, B, C];
    let new: Vec<&[u8]> = vec![A];
    assert!(ConsistencyProof::<Sha256Hasher>::generate(&old, &new).is_none());
}

#[test]
fn consistency_wrong_old_root_fails() {
    let old: Vec<&[u8]> = vec![A, B];
    let new: Vec<&[u8]> = vec![A, B, C, D];
    let proof: ConsistencyProof = ConsistencyProof::generate(&old, &new).unwrap();
    let wrong_root = Sha256Hasher::hash(b"wrong");
    let new_tree: MerkleTree = MerkleTree::new(&new);
    assert!(!proof.verify(&wrong_root, &new_tree.root()));
}

#[test]
fn consistency_empty_new_fails() {
    let old: Vec<&[u8]> = vec![A];
    let new: Vec<&[u8]> = vec![];
    assert!(ConsistencyProof::<Sha256Hasher>::generate(&old, &new).is_none());
}

#[test]
fn consistency_proof_fields() {
    let old: Vec<&[u8]> = vec![A, B];
    let new: Vec<&[u8]> = vec![A, B, C];
    let proof: ConsistencyProof = ConsistencyProof::generate(&old, &new).unwrap();
    let old_tree: MerkleTree = MerkleTree::new(&old);
    let a = Sha256Hasher::hash(A);
    let b = Sha256Hasher::hash(B);
    let c = Sha256Hasher::hash(C);
    assert_eq!(proof.old_size, 2);
    assert_eq!(proof.new_size, 3);
    assert_eq!(proof.hashes, vec![b, a, Sha256Hasher::hash_pair(&c, &c)]);
    assert_eq!(proof.old_root(), old_tree.root());
}

#[test]
fn consistency_four_to_seven_verifies() {
    let old: Vec<&[u8]> = vec![A, B, C, D];
    let new: Vec<&[u8]> = vec![A, B, C, D, b"e", b"f", b"g"];
    let proof: ConsistencyProof = ConsistencyProof::generate(&old, &new).unwrap();
    let old_tree: MerkleTree = MerkleTree::new(&old);
    let new_tree: MerkleTree = MerkleTree::new(&new);
    assert!(proof.verify(&old_tree.root(), &new_tree.root()));
}

#[test]
fn consistency_two_to_three_verifies() {
    let old: Vec<&[u8]> = vec![A, B];
    let new: Vec<&[u8]> = vec![A, B, C];
    let proof: ConsistencyProof = ConsistencyProof::generate(&old, &new).unwrap();
    let old_tree: MerkleTree = MerkleTree::new(&old);
    let new_tree: MerkleTree = MerkleTree::new(&new);
    assert!(proof.verify(&old_tree.root(), &new_tree.root()));
}

#[test]
fn consistency_every_prefix_verifies() {
    let data: Vec<Vec<u8>> = (0u8..11).map(|i| vec![i, i + 1]).collect();
    let all: Vec<&[u8]> = data.iter().map(|d| d.as_slice()).collect();
    for n in 1..=all.len() {
        let new_tree: MerkleTree = MerkleTree::new(&all[..n]);
        for m in 1..=n {
            let old_tree: MerkleTree = MerkleTree::new(&all[..m]);
            let proof: ConsistencyProof = ConsistencyProof::generate(&all[..m], &all[..n]).unwrap();
            assert!(proof.verify(&old_tree.root(), &new_tree.root()), "{} to {}", m, n);
            assert_eq!(proof.old_root(), old_tree.root());
        }
    }
}

#[test]
fn consistency_non_prefix_rejected() {
    let old: Vec<&[u8]> = vec![A, b"x"];
    let new: Vec<&[u8]> = vec![A, B, C];
    let proof: ConsistencyProof = ConsistencyProof::generate(&old, &new).unwrap();
    let old_tree: MerkleTree = MerkleTree::new(&old);
    let new_tree: MerkleTree = MerkleTree::new(&new);
    assert!(!proof.verify(&old_tree.root(), &new_tree.root()));
}

#[test]
fn consistency_tampered_sizes_rejected() {
    let old: Vec<&[u8]> = vec![A, B];
    let new: Vec<&[u8]> = vec![A, B, C, D];
    let old_tree: MerkleTree = MerkleTree::new(&old);
    let new_tree: MerkleTree = MerkleTree::new(&new);
    let mut proof: ConsistencyProof = ConsistencyProof::generate(&old, &new).unwrap();
    proof.new_size = 8;
    assert!(!proof.verify(&old_tree.root(), &new_tree.root()));
    proof.new_size = 4;
    proof.old_size = 5;
    assert!(!proof.verify(&old_tree.root(), &new_tree.root()));
    proof.old_size = 2;
    assert!(proof.verify(&old_tree.root(), &new_tree.root()));
}

#[test]
fn consistency_empty_hashes_rejected() {
    let mut proof: ConsistencyProof = ConsistencyProof::generate(&[A], &[A]).unwrap();
    proof.hashes.clear();
    let root = Sha256Hasher::hash(A);
    assert!(!proof.verify(&root, &root));
}

#[test]
fn consistency_same_size_needs_equal_roots() {
    let leaves: Vec<&[u8]> = vec![A, B];
    let proof: ConsistencyProof = ConsistencyProof::generate(&leaves, &leaves).unwrap();
    let tree: MerkleTree = MerkleTree::new(&leaves);
    assert_eq!(proof.hashes.len(), 2);
    assert!(proof.verify(&tree.root(), &tree.root()));
    assert!(!proof.verify(&tree.root(), &Sha256Hasher::hash(b"other")));
}

#[test]
fn cloned_consistency_proof_keeps_fields() {
    let old: Vec<&[u8]> = vec![A, B];
    let new: Vec<&[u8]> = vec![A, B, C, D];
    let proof: ConsistencyProof = ConsistencyProof::generate(&old, &new).unwrap();
    let copy = proof.clone();
    assert_eq!(copy.old_size, 2);
    assert_eq!(copy.new_size, 4);
    assert_eq!(copy.hashes, proof.hashes);
}

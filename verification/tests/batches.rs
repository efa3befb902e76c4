use merkle_tree::{BatchProof, HashStrategy, MerkleTree, Sha256Hasher};

const A: &[u8] = b"a";
const B: &[u8] = b"b";
const C: &[u8] = b"c";
const D: &[u8] = b"d";
const E: &[u8] = b"e";
const F: &[u8] = b"f";
const G: &[u8] = b"g";
const H_: &[u8] = b"h";

fn build_tree() -> MerkleTree {
    MerkleTree::new(&[A, B, C, D, E, F, G, H_])
}

#[test]
fn batch_verify_all() {
    let tree = build_tree();
    let indices = vec![0, 2, 5, 7];
    let batch = BatchProof::generate(&tree, &indices).unwrap();
    let leaves = [A, B, C, D, E, F, G, H_];
    let hashes: Vec<merkle_tree::hash::Hash> =
        indices.iter().map(|&i| Sha256Hasher::hash(leaves[i])).collect();
    assert!(batch.verify(&hashes));
}

#[test]
fn batch_single_proof() {
    let tree = build_tree();
    let batch = BatchProof::generate(&tree, &[0]).unwrap();
    let hash = Sha256Hasher::hash(A);
    assert!(batch.verify(&[hash]));
    assert_eq!(batch.len(), 1);
}

#[test]
fn batch_wrong_count_fails() {
    let tree = build_tree();
    let batch = BatchProof::generate(&tree, &[0, 1]).unwrap();
    assert!(!batch.verify(&[Sha256Hasher::hash(A)]));
}

#[test]
fn batch_with_wrong_leaf_fails() {
    let tree = build_tree();
    let batch = BatchProof::generate(&tree, &[0, 1]).unwrap();
    let hashes = vec![Sha256Hasher::hash(A), Sha256Hasher::hash(b"WRONG")];
    assert!(!batch.verify(&hashes));
}

#[test]
fn batch_out_of_bounds() {
    let tree = build_tree();
    assert!(BatchProof::generate(&tree, &[0, 99]).is_none());
}

#[test]
fn empty_batch_is_empty() {
    let tree = build_tree();
    let batch = BatchProof::generate(&tree, &[]).unwrap();
    assert!(batch.is_empty());
    assert_eq!(batch.len(), 0);
    assert!(!batch.verify(&[Sha256Hasher::hash(A)]));
    assert!(batch.verify(&[]));
}

#[test]
fn cloned_batch_still_verifies() {
    let tree = build_tree();
    let batch = BatchProof::generate(&tree, &[1, 6]).unwrap();
    let copy = batch.clone();
    assert_eq!(copy.len(), 2);
    assert!(copy.verify(&[Sha256Hasher::hash(B), Sha256Hasher::hash(G)]));
}

#[test]
fn batch_with_mixed_roots_fails() {
    let tree = build_tree();
    let other: MerkleTree = MerkleTree::new(&[A, B]);
    let mut batch = BatchProof::generate(&tree, &[0]).unwrap();
    let extra = BatchProof::generate(&other, &[0]).unwrap();
    batch.proofs.push(extra.proofs[0].clone());
    let hashes = vec![Sha256Hasher::hash(A), Sha256Hasher::hash(A)];
    assert!(!batch.verify(&hashes));
    assert!(extra.verify(&hashes[..1]));
}

#[test]
fn batch_repeated_index_verifies() {
    let tree = build_tree();
    let batch = BatchProof::generate(&tree, &[3, 3]).unwrap();
    let hashes = vec![Sha256Hasher::hash(D), Sha256Hasher::hash(D)];
    assert!(batch.verify(&hashes));
    assert!(!batch.is_empty());
}

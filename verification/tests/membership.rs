use merkle_tree::{HashStrategy, MerkleProof, MerkleTree, ProofNode, Sha256Hasher};

const A: &[u8] = b"a";
const B: &[u8] = b"b";
const C: &[u8] = b"c";
const D: &[u8] = b"d";

fn build_tree() -> MerkleTree {
    MerkleTree::new(&[A, B, C, D])
}

#[test]
fn valid_proof_verifies() {
    let tree = build_tree();
    let proof = MerkleProof::generate(&tree, 0).unwrap();
    let leaf = Sha256Hasher::hash(A);
    assert!(proof.verify(&leaf));
}

#[test]
fn all_leaves_verify() {
    let tree = build_tree();
    let leaves = [A, B, C, D];
    for (i, leaf_data) in leaves.iter().enumerate() {
        let proof = MerkleProof::generate(&tree, i).unwrap();
        let leaf = Sha256Hasher::hash(leaf_data);
        assert!(proof.verify(&leaf), "proof for leaf {} failed", i);
    }
}

#[test]
fn wrong_leaf_fails() {
    let tree = build_tree();
    let proof = MerkleProof::generate(&tree, 0).unwrap();
    let wrong = Sha256Hasher::hash(b"z");
    assert!(!proof.verify(&wrong));
}

#[test]
fn out_of_bounds_returns_none() {
    let tree = build_tree();
    assert!(MerkleProof::generate(&tree, 99).is_none());
}

#[test]
fn proof_for_padded_tree() {
    const X: &[u8] = b"x";
    const Y: &[u8] = b"y";
    const Z: &[u8] = b"z";
    let tree: MerkleTree = MerkleTree::new(&[X, Y, Z]);
    let proof = MerkleProof::generate(&tree, 2).unwrap();
    let leaf = Sha256Hasher::hash(Z);
    assert!(proof.verify(&leaf));
}

#[test]
fn tampered_root_fails() {
    let tree = build_tree();
    let mut proof = MerkleProof::generate(&tree, 0).unwrap();
    proof.root = [0u8; 32];
    let leaf = Sha256Hasher::hash(A);
    assert!(!proof.verify(&leaf));
}

#[test]
fn proof_siblings_for_padded_leaf() {
    let tree: MerkleTree = MerkleTree::new(&[b"x".as_slice(), b"y".as_slice(), b"z".as_slice()]);
    let proof = MerkleProof::generate(&tree, 2).unwrap();
    let x = Sha256Hasher::hash(b"x");
    let y = Sha256Hasher::hash(b"y");
    let z = Sha256Hasher::hash(b"z");
    assert_eq!(proof.leaf_index, 2);
    assert_eq!(
        proof.siblings,
        vec![ProofNode::Right(z), ProofNode::Left(Sha256Hasher::hash_pair(&x, &y))]
    );
    assert_eq!(proof.root, tree.root());
    assert_eq!(proof.compute_root(&z), tree.root());
}

#[test]
fn index_equal_to_leaf_count_returns_none() {
    let tree = build_tree();
    assert!(MerkleProof::generate(&tree, 4).is_none());
    assert!(MerkleProof::generate(&tree, 3).is_some());
}

#[test]
fn empty_tree_has_no_proofs() {
    let tree: MerkleTree = MerkleTree::new(&[]);
    assert!(MerkleProof::generate(&tree, 0).is_none());
}

#[test]
fn tree_proof_matches_generated_proof() {
    let tree = build_tree();
    let generated = MerkleProof::generate(&tree, 3).unwrap();
    let direct = tree.inclusion_proof(3);
    assert_eq!(generated.siblings, direct.siblings);
    assert_eq!(generated.root, direct.root);
    assert!(direct.verify_data(&tree.root(), D));
    assert!(!direct.verify_data(&tree.root(), C));
}

#[test]
fn cloned_proof_still_verifies() {
    let tree = build_tree();
    let proof = MerkleProof::generate(&tree, 1).unwrap();
    let copy = proof.clone();
    assert!(copy.verify(&Sha256Hasher::hash(B)));
}

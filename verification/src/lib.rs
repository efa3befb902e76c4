//! A Merkle tree library: binary trees built bottom-up over pluggable hash
//! strategies, membership proofs, batch proofs, consistency proofs between
//! snapshots, and incremental leaf updates.

pub mod hash;
pub mod leaf;
pub mod tree;
pub mod merkle_proof;
pub mod batch;
pub mod consistency;
pub mod update;

pub use hash::{Blake3Hasher, HashStrategy, Sha256Hasher};
pub use tree::MerkleTree;
pub use merkle_proof::{MerkleProof, ProofNode};
pub use batch::BatchProof;
pub use consistency::ConsistencyProof;
pub use leaf::Leaf;
pub use update::{batch_update, update_leaf};

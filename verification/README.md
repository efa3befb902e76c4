# merkle_tree

A verified Merkle tree library: binary trees over pluggable hash strategies
(SHA-256 and BLAKE3), membership proofs, batch proofs, consistency proofs
between snapshots, and incremental leaf updates.

- `src/hash.rs` — the `HashStrategy` trait and the SHA-256 / BLAKE3 strategies.
- `src/tree.rs` — the level-by-level tree and its specification (`levels_above`, `root_of`).
- `src/merkle_proof.rs` — membership proofs; a generated proof always rebuilds the root.
- `src/batch.rs` — batches of membership proofs sharing one root.
- `src/consistency.rs` — consistency proofs that an older snapshot is a prefix of a newer one; an honest proof is always accepted.
- `src/update.rs` — single and batch leaf updates, equal to rebuilding the tree.
- `src/leaf.rs` — domain-separated leaf hashes.


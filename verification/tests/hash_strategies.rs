use merkle_tree::{Blake3Hasher, HashStrategy, Sha256Hasher};

fn hex(bytes: &[u8]) -> String {
    bytes.iter().map(|b| format!("{:02x}", b)).collect()
}

#[test]
fn sha256_deterministic() {
    let a = Sha256Hasher::hash(b"hello");
    let b = Sha256Hasher::hash(b"hello");
    assert_eq!(a, b);
}

#[test]
fn sha256_different_inputs() {
    let a = Sha256Hasher::hash(b"hello");
    let b = Sha256Hasher::hash(b"world");
    assert_ne!(a, b);
}

#[test]
fn blake3_deterministic() {
    let a = Blake3Hasher::hash(b"hello");
    let b = Blake3Hasher::hash(b"hello");
    assert_eq!(a, b);
}

#[test]
fn sha256_vs_blake3_different() {
    let a = Sha256Hasher::hash(b"hello");
    let b = Blake3Hasher::hash(b"hello");
    assert_ne!(a, b);
}

#[test]
fn hash_pair_differs_from_single() {
    let a = Sha256Hasher::hash(b"hello");
    let b = Sha256Hasher::hash(b"world");
    let pair = Sha256Hasher::hash_pair(&a, &b);
    assert_ne!(pair, a);
    assert_ne!(pair, b);
}

#[test]
fn sha256_known_digest() {
    assert_eq!(
        hex(&Sha256Hasher::hash(b"abc")),
        "ba7816bf8f01cfea414140de5dae2223b00361a396177a9cb410ff61f20015ad"
    );
}

#[test]
fn blake3_known_digest() {
    assert_eq!(
        hex(&Blake3Hasher::hash(b"")),
        "af1349b9f5f9a1a6a0404dea36dcc9499bcb25c9adc112b7cc9a93cae41f3262"
    );
}

#[test]
fn hash_pair_is_hash_of_concatenation() {
    let a = Sha256Hasher::hash(b"left");
    let b = Blake3Hasher::hash(b"right");
    let mut joined = a.to_vec();
    joined.extend_from_slice(&b);
    assert_eq!(Sha256Hasher::hash_pair(&a, &b), Sha256Hasher::hash(&joined));
    assert_eq!(Blake3Hasher::hash_pair(&a, &b), Blake3Hasher::hash(&joined));
    assert_ne!(Sha256Hasher::hash_pair(&a, &b), Sha256Hasher::hash_pair(&b, &a));
}

#[test]
fn hash_quad_is_hash_of_concatenation() {
    let a = Sha256Hasher::hash(b"a");
    let b = Sha256Hasher::hash(b"b");
    let c = Sha256Hasher::hash(b"c");
    let d = Sha256Hasher::hash(b"d");
    let mut joined = Vec::new();
    for h in [a, b, c, d] {
        joined.extend_from_slice(&h);
    }
    assert_eq!(joined.len(), 128);
    assert_eq!(Sha256Hasher::hash_quad(&a, &b, &c, &d), Sha256Hasher::hash(&joined));
    assert_eq!(Blake3Hasher::hash_quad(&a, &b, &c, &d), Blake3Hasher::hash(&joined));
}

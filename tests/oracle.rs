use feistel_permutation::{DefaultBuildHasher, HashOracle, WordHasher};
use std::collections::hash_map::DefaultHasher;
use std::hash::Hasher;

fn digest(words: &[u64]) -> u64 {
    let bob = DefaultBuildHasher::new();
    let mut h = HashOracle::build_hasher(&bob);
    for &w in words {
        WordHasher::write_u64(&mut h, w);
    }
    WordHasher::finish(&h)
}

#[test]
fn default_oracle_matches_std_default_hasher() {
    let mut h = DefaultHasher::new();
    h.write(&0x1c10u64.to_le_bytes());
    h.write(&17u64.to_le_bytes());
    assert_eq!(digest(&[0x1c10, 17]), h.finish());
}

#[test]
fn default_oracle_depends_on_write_order() {
    assert_ne!(digest(&[1, 2]), digest(&[2, 1]));
}

#[test]
fn default_oracle_is_deterministic() {
    assert_eq!(digest(&[5, 6, 7]), digest(&[5, 6, 7]));
    assert_ne!(digest(&[5]), digest(&[6]));
}

#[test]
fn empty_digest_is_the_empty_std_digest() {
    assert_eq!(digest(&[]), DefaultHasher::new().finish());
}

//! Constant-space, random-access permutations over dense integer ranges.
//!
//! A Feistel network built over a caller-supplied keyed hash oracle gives a
//! bijection on the blocks of an even bit width; cycle-walking restricts it to a
//! bijection on `0..n` for any `n >= 1`.
pub mod feistel;
pub mod oracle;
pub mod permutation;

pub use feistel::Feistel;
pub use oracle::{DefaultBuildHasher, DefaultWordHasher, HashOracle, WordHasher};
pub use permutation::{OwnedPermutationIterator, Permutation, PermutationIterator};

//! Near-duplicate detection over text corpora with MinHash signatures,
//! banded locality-sensitive hashing and a disjoint-set union.

pub mod tokenizer;
pub mod key_index;
pub mod hashing;
pub mod minhash;
pub mod bands;
pub mod embed;
pub mod union_find;
pub mod lsh;
pub mod args;
pub mod ids;

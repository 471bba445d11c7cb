//! Prefix trees over words of `char` symbols, in two interchangeable
//! engines: one that keeps its nodes in a flat table addressed by index, and
//! one in which each node owns a hash map of its children. Both meet the
//! [`traits::WordTree`] contract, stated over the model in [`model`].
pub mod model;
pub mod traits;
pub mod arena_trie;
pub mod board;
pub mod hash_trie;
pub mod laws;

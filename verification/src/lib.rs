//! An arena-backed, edge-labelled ordered tree and a trie built on top of it.
//!
//! Nodes are addressed by dense indices that are never reused. Every public
//! operation carries a contract over the mathematical view of the arena.

pub mod error;
pub mod tree;
pub mod search;
pub mod trie;
pub mod laws;
pub mod trie_laws;

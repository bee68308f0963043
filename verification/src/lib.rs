//! A fixed-depth sparse binary Merkle tree.
//!
//! The tree commits to a fixed number of slots, most of which hold the
//! canonical empty content. Only hashes that differ from the hash of an
//! all-empty subtree are stored; every other node resolves to a table of
//! empty-subtree hashes computed once at construction.
pub mod hasher;
pub mod index;
pub mod model;
pub mod primitives;
pub mod tree;

pub use hasher::Hasher;
pub use primitives::GetBits;
pub use tree::SparseMerkleTree;


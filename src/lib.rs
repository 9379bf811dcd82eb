//! A binary Merkle hash tree over byte-string leaves, with inclusion proofs.
//!
//! The bottom layer holds the SHA3-256 digest of each leaf; each layer above
//! holds the digest of each consecutive pair of the layer below, a lone last
//! hash being paired with itself; the top layer holds the root.

pub mod hash;
pub mod laws;
pub mod model;
pub mod tree;

pub use hash::{hash_pair, NodeHash};
pub use tree::{
    add_element, create_merkle_tree, create_proof, get_leaf, get_root, verify_proof, MerkleTree,
};

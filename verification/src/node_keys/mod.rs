//! The keys of the node.
pub mod identity_key;

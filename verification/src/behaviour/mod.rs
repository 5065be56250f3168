//! The parts of the node: block sync, discovery, and what is known of the peers.
pub mod dht;
pub mod ip;
pub mod kadelmia;
pub mod lru;
pub mod polkadot;
pub mod polled;
pub mod reconnect;

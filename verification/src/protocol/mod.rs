//! The protocols of the network.
pub mod coding;
pub mod net_protocol;

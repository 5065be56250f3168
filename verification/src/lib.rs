//! A gateway to a Polkadot network: what it says to peers, what it makes of what they
//! say, and what it hands on.
pub mod behaviour;
pub mod block;
pub mod gateway;
pub mod node_keys;
pub mod octets;
pub mod peer;
pub mod protocol;
pub mod scale;
pub mod schema;
pub mod time;
pub mod wire;

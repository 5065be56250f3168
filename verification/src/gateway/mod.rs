//! What the gateway does with a connection: it serves substreams, feeds the bridge, and
//! requests the blocks that are announced.
pub mod bridge;
pub mod requester;
pub mod substream;

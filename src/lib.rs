//! Block exchange over the `/ipfs/bitswap/1.1.0` and `/ipfs/bitswap/1.2.0`
//! protocols: a per-peer message multiplexer and a query manager.
pub mod ids;
pub mod peer_set;
pub mod message;
pub mod events;
pub mod query;
pub mod peer_table;
pub mod rpc;

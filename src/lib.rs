//! A Kademlia-style DHT node core for the BitTorrent mainline DHT: node ids
//! and their secure-id rules, announce tokens, peer and routing storage, the
//! table of queries awaiting replies, per-address throttling, the handling
//! of incoming queries and of replies, the periodic maintenance decisions,
//! and the rounds of the iterative lookups.
//!
//! Nothing here waits or does input/output: times are handed in as whole
//! seconds, and the caller carries out what the functions decide.
pub mod id;
pub mod addr;
pub mod primitives;
pub mod secure_id;
pub mod token;
pub mod peer_storage;
pub mod node_storage;
pub mod address_source;
pub mod messages;
pub mod dht;
pub mod operations;
pub mod transactions;
pub mod throttler;

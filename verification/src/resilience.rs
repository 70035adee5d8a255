//! Utilities beside the ledger: a short-lived cache of transactions, and a
//! monitor of the peers' heartbeats.

pub mod caching;
pub mod heartbeat;

//! Dissemination of transactions between peers.

pub mod gossip_protocol;

//! A UDP BitTorrent tracker core: the wire codec for tracker datagrams, the
//! connection-id registry, the per-info-hash swarm store, and the handler
//! that turns one datagram into one response.
//!
//! Socket ownership, task spawning and shutdown live outside this crate; the
//! functions here work on plain byte buffers and integer clock readings.

use vstd::prelude::*;

pub mod wire;
pub mod action;
pub mod parser;
pub mod registry;
pub mod store;
pub mod handler;

verus! {

/// Default port that the tracker listens on.
pub const DEFAULT_PORT: u16 = 6969;

/// Seconds a connection id stays valid after issuance.
pub const CONNECTION_TTL: u64 = 120;

/// Seconds after its last announce before a peer entry is considered stale.
pub const PEER_STALENESS: u64 = 1800;

/// Seconds a client is asked to wait between announces.
pub const ANNOUNCE_INTERVAL: u32 = 900;

/// Most peers ever returned in one announce response, whatever the client asks.
pub const MAX_PEERS_RETURNED: u32 = 50;

/// Most info hashes accepted in one scrape request.
pub const MAX_SCRAPE_HASHES: u64 = 74;

} // verus!

//! The client's settings. Durations are in milliseconds.

use vstd::prelude::*;

verus! {

/// The port that the client listens on, and that it does not connect to.
pub const PORT: u32 = 6881;

/// How long a block request stays valid.
pub const REQUEST_EXPIRATION_MS: u64 = 30000;

/// At most this many block requests are outstanding with one peer.
pub const MAX_OUTSTANDING_REQUESTS_PER_PEER: i32 = 10;

/// At most this many block requests are made for one download per tick.
pub const MAX_REQUESTS_PER_TICK_PER_DOWNLOAD: usize = 100;

/// A peer is not reconnected to after this many attempts.
pub const MAX_PEER_RECONNECT_ATTEMPTS: u32 = 32;

/// At least this long passes between two reconnection attempts to a peer.
pub const MIN_PEER_RECONNECT_INTERVAL_MS: u64 = 5000;

/// The size of the blocks that pieces are requested in.
pub const BLOCK_SIZE: u64 = 16384;

/// How often the state is written to disk.
pub const STATE_PERSISTENCE_INTERVAL_MS: u64 = 3000;

/// How long one turn of the main loop sleeps.
pub const TICK_INTERVAL_MS: u64 = 100;

/// At most this many messages are read from one peer per tick.
pub const MAX_INCOMING_MESSAGES_PER_TICK_PER_DOWNLOAD: u32 = 100;

/// How long to wait for an outgoing connection.
pub const OUTGOING_CONNECTION_TIMEOUT_MS: u64 = 3000;

} // verus!

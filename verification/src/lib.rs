//! A small BitTorrent client: the wire formats, the bookkeeping of a download
//! and the decisions that drive it, each with a contract that it is proved to meet.

pub mod config;
pub mod io_primitives;
pub mod text;
pub mod announcement;
pub mod util;
pub mod torrent_entries;
pub mod download;
pub mod metainfo;
pub mod decider;
pub mod peer_protocol;
pub mod handshake;
pub mod outgoing_connections;
pub mod state_persistence;
pub mod main_loop;
pub mod cli;

//! Session state and peer coordination engine of a BitTorrent client.

pub mod accounting;
pub mod bitfield;
pub mod chunk_tracker;
pub mod credit;
pub mod file_filter;
pub mod files;
pub mod lengths;
pub mod peer_state;
pub mod piece_check;
pub mod torrent_state;

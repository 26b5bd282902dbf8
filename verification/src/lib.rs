//! Download engine of a BitTorrent leeching client: the bit-packed piece sets,
//! the peer wire codec, piece selection, block assembly and the state machines
//! that drive peers, trackers and the torrent as a whole.

pub mod bencode;
pub mod bencode_laws;
pub mod bitfield;
pub mod buffer;
pub mod config;
pub mod daemon;
pub mod hash;
pub mod http_tracker;
pub mod metainfo;
pub mod peer;
pub mod peer_protocol;
pub mod piece_cache;
pub mod piece_picker;
pub mod torrent_parser;
pub mod torrent_session;
pub mod tracker;
pub mod types;

//! A BitTorrent leecher core: metainfo codec, torrent geometry, tracker
//! packets, the peer wire protocol and the download scheduler.

pub mod bencoding;
pub mod client;
pub mod error;
pub mod geometry;
pub mod magnet;
pub mod metainfo;
pub mod peer;
pub mod torrent;
pub mod tracker;
pub mod utils;

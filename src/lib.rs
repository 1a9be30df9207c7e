//! A BitTorrent peer-wire client core: the handshake, the length-prefixed
//! message codec and the piece download engine, with their contracts.
pub mod bencode;
pub mod bytes;
pub mod digest;
pub mod download;
pub mod error;
pub mod handshake;
pub mod peer;
pub mod session;
pub mod torrent;
pub mod tracker;
pub mod url_encode;

//! A BitTorrent download client core: bencode, metainfo, tracker, peer wire
//! protocol and download bookkeeping, with executable code proved against its
//! contracts.
pub mod bencode;
pub mod bindings;
pub mod torrent;
pub mod tracker;
pub mod peer;
pub mod metadata;
pub mod download;
pub mod magnet;

//! A BitTorrent client library: bencoding, torrent metadata, the peer wire
//! protocol, piece selection, tracker and DHT messages, and the decisions of
//! the sessions that drive them.

pub mod bencode;
pub mod bitfield;
pub mod bytes;
pub mod cli;
pub mod config;
pub mod dht;
pub mod engine;
pub mod error;
pub mod gateway;
pub mod laws;
pub mod metainfo;
pub mod net;
pub mod network;
pub mod outside;
pub mod peer;
pub mod pending;
pub mod piece;
pub mod rounding;
pub mod sort;
pub mod storage;
pub mod text;
pub mod tracker;
pub mod types;
pub mod ui;
pub mod webseed;

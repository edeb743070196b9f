//! Torrent sessions: what a session decides about its peers, its pieces and
//! its trackers.

pub mod choke;
pub mod laws;
pub mod peer_messages;
pub mod peer_session;
pub mod peers;
pub mod session;

pub use crate::network::peers::PeerStats;
pub use crate::network::session::{TorrentSession, TorrentStats};

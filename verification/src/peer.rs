//! The peer wire protocol.

pub mod connection;
pub mod extension;
pub mod laws;
pub mod message;
pub mod metadata;

pub use crate::peer::connection::PeerConnection;
pub use crate::peer::message::PeerMessage;
pub use crate::peer::metadata::MetadataState;

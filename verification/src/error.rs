//! The library's error type.

use crate::text::joined;
use vstd::prelude::*;

verus! {

/// What went wrong, with a message for the user where one exists.
#[derive(Debug)]
pub enum TorrentError {
    BencodeParse(String),
    InvalidMetaInfo(String),
    Tracker(String),
    Peer(String),
    Io(String),
    Network(String),
    Storage(String),
    Timeout,
    MagnetParse(String),
    ResumeData(String),
}

impl TorrentError {
    /// The message a user sees.
    pub open spec fn text(&self) -> Seq<char> {
        match self {
            TorrentError::BencodeParse(s) => "Bencode parse error: "@ + s@,
            TorrentError::InvalidMetaInfo(s) => "Invalid metainfo: "@ + s@,
            TorrentError::Tracker(s) => "Tracker error: "@ + s@,
            TorrentError::Peer(s) => "Peer error: "@ + s@,
            TorrentError::Io(s) => "IO error: "@ + s@,
            TorrentError::Network(s) => "Network error: "@ + s@,
            TorrentError::Storage(s) => "Storage error: "@ + s@,
            TorrentError::Timeout => "Timeout"@,
            TorrentError::MagnetParse(s) => "Magnet parse error: "@ + s@,
            TorrentError::ResumeData(s) => "Resume data error: "@ + s@,
        }
    }

    /// Renders the error as the message a user sees.
    pub fn message(&self) -> (text: String)
        ensures
            text@ == self.text(),
    {
        match self {
            TorrentError::BencodeParse(s) => joined("Bencode parse error: ", s.as_str()),
            TorrentError::InvalidMetaInfo(s) => joined("Invalid metainfo: ", s.as_str()),
            TorrentError::Tracker(s) => joined("Tracker error: ", s.as_str()),
            TorrentError::Peer(s) => joined("Peer error: ", s.as_str()),
            TorrentError::Io(s) => joined("IO error: ", s.as_str()),
            TorrentError::Network(s) => joined("Network error: ", s.as_str()),
            TorrentError::Storage(s) => joined("Storage error: ", s.as_str()),
            TorrentError::Timeout => "Timeout".to_string(),
            TorrentError::MagnetParse(s) => joined("Magnet parse error: ", s.as_str()),
            TorrentError::ResumeData(s) => joined("Resume data error: ", s.as_str()),
        }
    }
}

} // verus!

//! What is said to trackers, and what they answer.

use crate::error::TorrentError;
use crate::net::SocketAddrV4;
use crate::text::{chars_of, joined};
use crate::types::{opt_text, starts_with, InfoHash, PeerId};
use vstd::prelude::*;
use vstd::string::*;

pub mod http;
pub mod udp;

verus! {

/// What a tracker answered.
#[derive(Debug)]
pub struct TrackerResponse {
    pub interval: u64,
    pub min_interval: Option<u64>,
    pub peers: Vec<SocketAddrV4>,
    pub seeders: Option<u64>,
    pub leechers: Option<u64>,
    pub warning: Option<String>,
}

/// What is announced, with the event that is the reason for it, if any.
#[derive(Debug)]
pub struct Announce {
    pub info_hash: InfoHash,
    pub peer_id: PeerId,
    pub port: u16,
    pub uploaded: u64,
    pub downloaded: u64,
    pub left: u64,
    pub event: Option<String>,
}

/// How a tracker is spoken to.
#[derive(Debug, Clone, Copy, PartialEq, Eq, Structural)]
pub enum Protocol {
    Http,
    Udp,
}

/// How the tracker at an address is spoken to, if that is known.
pub open spec fn protocol_of(url: Seq<char>) -> Option<Protocol> {
    if "http://"@.is_prefix_of(url) || "https://"@.is_prefix_of(url) {
        Some(Protocol::Http)
    } else if "udp://"@.is_prefix_of(url) {
        Some(Protocol::Udp)
    } else {
        None
    }
}

/// Tells how a tracker is spoken to.
pub fn tracker_protocol(url: &str) -> (r: Result<Protocol, TorrentError>)
    ensures
        match r {
            Ok(p) => protocol_of(url@) == Some(p),
            Err(TorrentError::Tracker(m)) => protocol_of(url@) is None && m@
                == "Unsupported tracker protocol: "@ + url@,
            _ => false,
        },
{
    let chars = chars_of(url);
    if starts_with(chars.as_slice(), chars_of("http://").as_slice()) || starts_with(
        chars.as_slice(),
        chars_of("https://").as_slice(),
    ) {
        Ok(Protocol::Http)
    } else if starts_with(chars.as_slice(), chars_of("udp://").as_slice()) {
        Ok(Protocol::Udp)
    } else {
        Err(TorrentError::Tracker(joined("Unsupported tracker protocol: ", url)))
    }
}

/// How long to wait before the next announcement: what the tracker asks for,
/// but not less than its minimum.
pub open spec fn wait_of(interval: u64, min_interval: Option<u64>) -> u64 {
    match min_interval {
        Some(m) if m > interval => m,
        _ => interval,
    }
}

/// How long to wait before the next announcement, in seconds.
pub fn next_interval(r: &TrackerResponse) -> (w: u64)
    ensures
        w == wait_of(r.interval, r.min_interval),
{
    match r.min_interval {
        Some(m) => if m > r.interval {
            m
        } else {
            r.interval
        },
        None => r.interval,
    }
}

/// The event of the next announcement: the first one says that the download
/// has started.
pub fn next_event(first: &mut bool) -> (r: Option<String>)
    ensures
        opt_text(r) == if *old(first) {
            Some("started"@)
        } else {
            None
        },
        !*final(first),
{
    if *first {
        *first = false;
        Some("started".to_string())
    } else {
        None
    }
}

/// A round of announcements: the trackers are tried in order until one answers.
#[derive(Debug)]
pub struct AnnounceRound {
    /// How many trackers there are.
    pub count: usize,
    /// The tracker to try next.
    pub next: usize,
    /// A tracker has answered.
    pub answered: bool,
}

impl AnnounceRound {
    /// A round in which no tracker was tried yet.
    pub fn new(count: usize) -> (r: AnnounceRound)
        ensures
            r == (AnnounceRound { count, next: 0, answered: false }),
    {
        AnnounceRound { count, next: 0, answered: false }
    }

    /// The tracker to try now; none once one has answered or all were tried.
    pub fn next_tracker(&mut self) -> (r: Option<usize>)
        ensures
            if old(self).answered || old(self).next >= old(self).count {
                r is None && *final(self) == *old(self)
            } else {
                &&& r == Some(old(self).next)
                &&& *final(self) == (AnnounceRound {
                    next: (old(self).next + 1) as usize,
                    ..*old(self)
                })
            },
    {
        if self.answered || self.next >= self.count {
            return None;
        }
        let i: usize = self.next;
        self.next = i + 1;
        Some(i)
    }

    /// Ends the round with an answer.
    pub fn succeed(&mut self)
        ensures
            *final(self) == (AnnounceRound { answered: true, ..*old(self) }),
    {
        self.answered = true;
    }
}

} // verus!

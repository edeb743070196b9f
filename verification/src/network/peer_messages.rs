//! How a session answers the messages of a peer.

use crate::bencode::extract_info_raw;
use crate::bencode::grammar::info_raw;
use crate::bitfield::{field_size, has_bit, test_bit};
use crate::bytes::copy_range;
use crate::network::peer_session::{
    add_download, backing_off, data_payload, drop_offsets, drop_sizes, elapsed, extended,
    metadata_step, opt_metadata, position_of, reject_payload, request_payload,
    same_but_availability, sends, set_interest, wanted_metadata, with_download, with_interest,
    with_told, without, MetadataOutcome, PeerAction, PeerSession, METADATA_BACKOFF, METADATA_GAP,
};
use crate::network::peers::contains_addr;
use crate::network::session::TorrentSession;
use crate::outside::{sha1_digest, sha1_of};
use crate::peer::connection::PeerConnection;
use crate::peer::extension::{exchanged_peers, extension_ids, metadata_message};
use crate::peer::message::{Message, PeerMessage};
use crate::peer::metadata::{metadata_chunk, metadata_pieces, MetadataState};
use crate::piece::collector::{concatenated, cut, sorted_offsets, PieceCollector};
use crate::piece::manager::{seen_once_more, PieceManager};
use crate::types::{InfoHash, BLOCK_SIZE};
use vstd::prelude::*;

verus! {

/// Availabilities after a peer told all its pieces: those that it was not known
/// to have were seen once more.
pub open spec fn seen_field(avail: Seq<u32>, known: Seq<u8>, told: Seq<u8>, n: int) -> Seq<u32>
    decreases n,
{
    if n <= 0 {
        avail
    } else if has_bit(told, n - 1) && !has_bit(known, n - 1) {
        seen_once_more(seen_field(avail, known, told, n - 1), n - 1)
    } else {
        seen_field(avail, known, told, n - 1)
    }
}

/// Nothing changed and nothing is to be done.
pub open spec fn idle(
    s0: PeerSession,
    t0: TorrentSession,
    s1: PeerSession,
    t1: TorrentSession,
    act: PeerAction,
) -> bool {
    s1 == s0 && t1 == t0 && act is Nothing
}

/// The answer to a message that the peer has a piece.
pub open spec fn have_answered(
    s0: PeerSession,
    t0: TorrentSession,
    piece: u32,
    s1: PeerSession,
    t1: TorrentSession,
    act: PeerAction,
) -> bool {
    if piece >= t0.piece_manager.num_pieces || has_bit(s0.conn.bitfield@, piece as int) {
        idle(s0, t0, s1, t1, act)
    } else {
        &&& act is Nothing
        &&& s1 == (PeerSession { conn: s1.conn, ..s0 })
        &&& s1.conn.same_but_bitfield(&s0.conn)
        &&& forall|j: int|
            #![trigger has_bit(s1.conn.bitfield@, j)]
            has_bit(s1.conn.bitfield@, j) == (j == piece || has_bit(s0.conn.bitfield@, j))
        &&& same_but_availability(t1, t0)
        &&& t1.piece_manager.piece_availability@ == seen_once_more(
            t0.piece_manager.piece_availability@,
            piece as int,
        )
    }
}

/// The answer to a message that tells all pieces of the peer.
pub open spec fn field_answered(
    s0: PeerSession,
    t0: TorrentSession,
    bits: Seq<u8>,
    s1: PeerSession,
    t1: TorrentSession,
    act: PeerAction,
) -> bool {
    let n = t0.piece_manager.num_pieces as int;
    if bits.len() != field_size(n) {
        idle(s0, t0, s1, t1, act)
    } else {
        &&& act is Nothing
        &&& s1 == (PeerSession { conn: s1.conn, ..s0 })
        &&& s1.conn.same_but_bitfield(&s0.conn)
        &&& s1.conn.bitfield@ == bits
        &&& same_but_availability(t1, t0)
        &&& t1.piece_manager.piece_availability@ == seen_field(
            t0.piece_manager.piece_availability@,
            s0.conn.bitfield@,
            bits,
            n,
        )
    }
}

/// The answer to the peer's extended handshake: its extension ids are kept,
/// and while the torrent's metadata is unknown a piece of it is asked for.
pub open spec fn handshake_answered(
    s0: PeerSession,
    t0: TorrentSession,
    payload: Seq<u8>,
    now: u64,
    s1: PeerSession,
    t1: TorrentSession,
    act: PeerAction,
) -> bool {
    let (pex, metadata) = extension_ids(payload);
    let asks = metadata is Some && !t0.has_metadata() && !backing_off(
        s0.conn.metadata_reject_until,
        now,
    );
    let piece = wanted_metadata(opt_metadata(t0.metadata_state));
    &&& t1 == t0
    &&& s1 == (PeerSession {
        conn: PeerConnection {
            peer_pex_id: if pex is Some {
                pex
            } else {
                s0.conn.peer_pex_id
            },
            peer_metadata_id: if metadata is Some {
                metadata
            } else {
                s0.conn.peer_metadata_id
            },
            metadata_sent_requests: s1.conn.metadata_sent_requests,
            ..s0.conn
        },
        ..s0
    })
    &&& if asks {
        &&& s1.conn.metadata_sent_requests@ == s0.conn.metadata_sent_requests@.push(piece as usize)
        &&& sends(act, extended(metadata->0, request_payload((piece as usize as i64) as int)))
    } else {
        act is Nothing && s1.conn.metadata_sent_requests == s0.conn.metadata_sent_requests
    }
}

/// The answer to a request for metadata: the piece if there is one and the
/// last was sent a while ago, and a refusal otherwise. A torrent file without
/// an info dictionary is not answered for.
pub open spec fn metadata_request_answered(
    s0: PeerSession,
    t0: TorrentSession,
    id: u8,
    piece: usize,
    now: u64,
    s1: PeerSession,
    t1: TorrentSession,
    act: PeerAction,
) -> bool {
    let refusal = extended(id, reject_payload((piece as i64) as int));
    let rested = match s0.conn.metadata_last_response {
        Some(t) => elapsed(now, t) > METADATA_GAP,
        None => true,
    };
    &&& t1 == t0
    &&& match t0.torrent_bytes {
        None => s1 == s0 && sends(act, refusal),
        Some(bytes) => match info_raw(bytes@) {
            Err(_) => s1 == s0 && act is Nothing,
            Ok(info) => if piece < metadata_pieces(info.len() as int) && rested {
                &&& s1 == (PeerSession {
                    conn: PeerConnection { metadata_last_response: Some(now), ..s0.conn },
                    ..s0
                })
                &&& sends(act, extended(id, data_payload(info, piece)))
            } else {
                s1 == s0 && sends(act, refusal)
            },
        },
    }
}

/// The answer to a piece of metadata. A piece that was not asked for is
/// ignored.
pub open spec fn metadata_data_answered(
    s0: PeerSession,
    t0: TorrentSession,
    id: u8,
    piece: usize,
    total: usize,
    data: Seq<u8>,
    now: u64,
    s1: PeerSession,
    t1: TorrentSession,
    act: PeerAction,
) -> bool {
    let asked = s0.conn.metadata_sent_requests@;
    if !asked.contains(piece) {
        idle(s0, t0, s1, t1, act)
    } else {
        let k = asked.index_of_first(piece)->0;
        let rest = asked.update(k, asked.last()).drop_last();
        let (state, outcome) = metadata_step(
            opt_metadata(t0.metadata_state),
            t0.info_hash@,
            piece as int,
            total as int,
            data,
        );
        let asks = outcome is Next && !backing_off(s0.conn.metadata_reject_until, now);
        &&& opt_metadata(t1.metadata_state) == state
        &&& t1 == (TorrentSession { metadata_state: t1.metadata_state, ..t0 })
        &&& s1 == (PeerSession {
            conn: PeerConnection {
                metadata_sent_requests: s1.conn.metadata_sent_requests,
                ..s0.conn
            },
            ..s0
        })
        &&& s1.conn.metadata_sent_requests@ == if asks {
            rest.push((piece + 1) as usize)
        } else {
            rest
        }
        &&& match outcome {
            MetadataOutcome::Nothing => act is Nothing,
            MetadataOutcome::Next(n) => if asks {
                sends(act, extended(id, request_payload((n as usize as i64) as int)))
            } else {
                act is Nothing
            },
            MetadataOutcome::Complete(info) => act matches PeerAction::Assembled(v) && v@ == info,
        }
    }
}

/// The answer to a refusal of metadata: the piece is no longer awaited, and
/// none is asked of the peer for a minute.
pub open spec fn metadata_reject_answered(
    s0: PeerSession,
    t0: TorrentSession,
    piece: usize,
    now: u64,
    s1: PeerSession,
    t1: TorrentSession,
    act: PeerAction,
) -> bool {
    &&& t1 == t0
    &&& act is Nothing
    &&& s1.conn.metadata_sent_requests@ == without(s0.conn.metadata_sent_requests@, piece)
    &&& s1 == (PeerSession {
        conn: PeerConnection {
            metadata_reject_until: Some(
                if now + METADATA_BACKOFF > u64::MAX {
                    u64::MAX
                } else {
                    (now + METADATA_BACKOFF) as u64
                },
            ),
            metadata_sent_requests: s1.conn.metadata_sent_requests,
            ..s0.conn
        },
        ..s0
    })
}

/// The answer to an extension message other than the handshake.
pub open spec fn extension_answered(
    s0: PeerSession,
    t0: TorrentSession,
    id: u8,
    payload: Seq<u8>,
    now: u64,
    s1: PeerSession,
    t1: TorrentSession,
    act: PeerAction,
) -> bool {
    let pex = match s0.conn.peer_pex_id {
        Some(p) => p,
        None => 1,
    };
    if id == pex {
        let told = exchanged_peers(payload).0;
        &&& t1 == t0
        &&& act is Nothing
        &&& s1.known_peers@ == with_told(
            s0.known_peers@,
            told,
            s0.conn.addr,
            told.len() as int,
        )
        &&& s1 == (PeerSession { known_peers: s1.known_peers, ..s0 })
    } else if s0.conn.peer_metadata_id == Some(id) {
        let (kind, piece, total, data) = metadata_message(payload);
        if kind == 0 {
            metadata_request_answered(s0, t0, id, piece, now, s1, t1, act)
        } else if kind == 1 {
            metadata_data_answered(s0, t0, id, piece, total, data, now, s1, t1, act)
        } else if kind == 2 {
            metadata_reject_answered(s0, t0, piece, now, s1, t1, act)
        } else {
            idle(s0, t0, s1, t1, act)
        }
    } else {
        idle(s0, t0, s1, t1, act)
    }
}

/// The answer to a block: it is counted, and collected if it belongs to the
/// current piece.
pub open spec fn block_answered(
    s0: PeerSession,
    t0: TorrentSession,
    index: u32,
    begin: u32,
    data: Seq<u8>,
    s1: PeerSession,
    t1: TorrentSession,
    act: PeerAction,
) -> bool {
    &&& s1.issued_by_us@ == without(s0.issued_by_us@, begin)
    &&& s1 == (PeerSession {
        pending_requests: if s0.pending_requests > 0 {
            (s0.pending_requests - 1) as u32
        } else {
            0
        },
        issued_by_us: s1.issued_by_us,
        ..s0
    })
    &&& t1.peer_choke_stats@ == with_download(
        t0.peer_choke_stats@,
        s0.conn.addr,
        data.len() as u64,
    )
    &&& t1 == (TorrentSession {
        total_downloaded: ((t0.total_downloaded + data.len()) % 0x1_0000_0000_0000_0000) as u64,
        peer_choke_stats: t1.peer_choke_stats,
        ..t0
    })
    &&& if s0.current_piece_index == Some(index) {
        act matches PeerAction::Collect { begin: b, data: d } && b == begin && d@ == data
    } else {
        act is Nothing
    }
}

/// A block that the peer may have: it is not choked, the piece is at hand, and
/// the block lies within the piece and is not too long.
pub open spec fn servable(s: PeerSession, pm: PieceManager, index: u32, begin: u32, length: u32) -> bool {
    &&& !s.conn.am_choking
    &&& index < pm.num_pieces
    &&& 0 < length <= 2 * BLOCK_SIZE
    &&& pm.have@[index as int]
    &&& begin + length <= pm.size_of(index as int)
}

/// How a message is answered.
pub open spec fn answered(
    s0: PeerSession,
    t0: TorrentSession,
    m: Message,
    now: u64,
    s1: PeerSession,
    t1: TorrentSession,
    act: PeerAction,
) -> bool {
    match m {
        Message::KeepAlive => idle(s0, t0, s1, t1, act),
        Message::Cancel { index, begin, length } => idle(s0, t0, s1, t1, act),
        Message::Choke => {
            &&& t1 == t0 && act is Nothing
            &&& s1 == (PeerSession {
                conn: PeerConnection { peer_choking: true, ..s0.conn },
                pending_requests: 0,
                ..s0
            })
        },
        Message::Unchoke => {
            &&& t1 == t0 && act is Nothing
            &&& s1 == (PeerSession {
                conn: PeerConnection { peer_choking: false, ..s0.conn },
                ..s0
            })
        },
        Message::Interested => interest_answered(s0, t0, true, s1, t1, act),
        Message::NotInterested => interest_answered(s0, t0, false, s1, t1, act),
        Message::Have(piece) => have_answered(s0, t0, piece, s1, t1, act),
        Message::Bitfield(bits) => field_answered(s0, t0, bits, s1, t1, act),
        Message::Extended { id, payload } => if id == 0 {
            handshake_answered(s0, t0, payload, now, s1, t1, act)
        } else {
            extension_answered(s0, t0, id, payload, now, s1, t1, act)
        },
        Message::Piece { index, begin, data } => block_answered(
            s0,
            t0,
            index,
            begin,
            data,
            s1,
            t1,
            act,
        ),
        Message::Request { index, begin, length } => {
            &&& s1 == s0 && t1 == t0
            &&& if servable(s0, t0.piece_manager, index, begin, length) {
                act == (PeerAction::Serve {
                    index,
                    begin,
                    length,
                    piece_size: t0.piece_manager.size_of(index as int) as u64,
                })
            } else {
                act is Nothing
            }
        },
        Message::Port(port) => {
            &&& s1 == s0 && t1 == t0
            &&& act == if port != 0 {
                PeerAction::PingDht(port)
            } else {
                PeerAction::Nothing
            }
        },
    }
}

/// The answer to a change of the peer's interest.
pub open spec fn interest_answered(
    s0: PeerSession,
    t0: TorrentSession,
    interested: bool,
    s1: PeerSession,
    t1: TorrentSession,
    act: PeerAction,
) -> bool {
    &&& act is Nothing
    &&& s1 == (PeerSession {
        conn: PeerConnection { peer_interested: interested, ..s0.conn },
        ..s0
    })
    &&& t1.peer_choke_stats@ == with_interest(t0.peer_choke_stats@, s0.conn.addr, interested)
    &&& t1 == (TorrentSession { peer_choke_stats: t1.peer_choke_stats, ..t0 })
}

impl PeerSession {
    /// Answers a message of the peer.
    pub fn on_message(&mut self, torrent: &mut TorrentSession, msg: PeerMessage, now: u64) -> (r:
        PeerAction)
        requires
            old(torrent).wf(),
            old(torrent).piece_manager.num_pieces > 0 ==> old(torrent).piece_manager.piece_length
                > 0,
        ensures
            final(torrent).wf(),
            answered(*old(self), *old(torrent), msg@, now, *final(self), *final(torrent), r),
    {
        match msg {
            PeerMessage::KeepAlive => PeerAction::Nothing,
            PeerMessage::Choke => {
                self.conn.peer_choking = true;
                self.pending_requests = 0;
                PeerAction::Nothing
            },
            PeerMessage::Unchoke => {
                self.conn.peer_choking = false;
                PeerAction::Nothing
            },
            PeerMessage::Interested => {
                self.conn.peer_interested = true;
                set_interest(&mut torrent.peer_choke_stats, self.conn.addr, true);
                PeerAction::Nothing
            },
            PeerMessage::NotInterested => {
                self.conn.peer_interested = false;
                set_interest(&mut torrent.peer_choke_stats, self.conn.addr, false);
                PeerAction::Nothing
            },
            PeerMessage::Have(piece) => self.on_have(torrent, piece),
            PeerMessage::Bitfield(bits) => self.on_bitfield(torrent, bits),
            PeerMessage::Extended { id, payload } => {
                if id == 0 {
                    self.on_handshake(torrent, payload.as_slice(), now)
                } else {
                    self.on_extension(torrent, id, payload.as_slice(), now)
                }
            },
            PeerMessage::Piece { index, begin, data } => self.on_piece(torrent, index, begin, data),
            PeerMessage::Request { index, begin, length } => {
                self.on_request(torrent, index, begin, length)
            },
            PeerMessage::Cancel { index: _, begin: _, length: _ } => PeerAction::Nothing,
            PeerMessage::Port(port) => {
                if port != 0 {
                    PeerAction::PingDht(port)
                } else {
                    PeerAction::Nothing
                }
            },
        }
    }

    fn on_have(&mut self, torrent: &mut TorrentSession, piece: u32) -> (r: PeerAction)
        requires
            old(torrent).wf(),
        ensures
            final(torrent).wf(),
            have_answered(*old(self), *old(torrent), piece, *final(self), *final(torrent), r),
    {
        if piece < torrent.piece_manager.num_pieces && !self.conn.has_piece(piece) {
            self.conn.set_piece(piece);
            torrent.piece_manager.mark_have_piece(piece);
        }
        PeerAction::Nothing
    }

    fn on_bitfield(&mut self, torrent: &mut TorrentSession, bits: Vec<u8>) -> (r: PeerAction)
        requires
            old(torrent).wf(),
        ensures
            final(torrent).wf(),
            field_answered(*old(self), *old(torrent), bits@, *final(self), *final(torrent), r),
    {
        let n: u32 = torrent.piece_manager.num_pieces;
        let size: u32 = if n % 8 == 0 {
            n / 8
        } else {
            n / 8 + 1
        };
        if bits.len() != size as usize {
            return PeerAction::Nothing;
        }
        let mut i: u32 = 0;
        while i < n
            invariant
                i <= n,
                n == old(torrent).piece_manager.num_pieces,
                *self == *old(self),
                torrent.wf(),
                same_but_availability(*torrent, *old(torrent)),
                torrent.piece_manager.piece_availability@ == seen_field(
                    old(torrent).piece_manager.piece_availability@,
                    old(self).conn.bitfield@,
                    bits@,
                    i as int,
                ),
            decreases n - i,
        {
            if test_bit(bits.as_slice(), i) && !self.conn.has_piece(i) {
                torrent.piece_manager.mark_have_piece(i);
            }
            i += 1;
        }
        self.conn.bitfield = bits;
        PeerAction::Nothing
    }

    fn on_handshake(&mut self, torrent: &mut TorrentSession, payload: &[u8], now: u64) -> (r:
        PeerAction)
        requires
            old(torrent).wf(),
        ensures
            final(torrent).wf(),
            handshake_answered(
                *old(self),
                *old(torrent),
                payload@,
                now,
                *final(self),
                *final(torrent),
                r,
            ),
    {
        let (pex, metadata) = PeerMessage::parse_extended_handshake(payload);
        if let Some(id) = pex {
            self.conn.peer_pex_id = Some(id);
        }
        if let Some(id) = metadata {
            self.conn.peer_metadata_id = Some(id);
            let waiting: bool = match self.conn.metadata_reject_until {
                Some(t) => t > now,
                None => false,
            };
            if torrent.meta.num_pieces() == 0 && !waiting {
                let piece: usize = match &torrent.metadata_state {
                    Some(ms) => match ms.next_missing() {
                        Some(i) => i,
                        None => 0,
                    },
                    None => 0,
                };
                self.conn.metadata_sent_requests.push(piece);
                let payload = PeerMessage::build_metadata_request(piece);
                return PeerAction::Send(PeerMessage::Extended { id, payload });
            }
        }
        PeerAction::Nothing
    }

    fn on_extension(
        &mut self,
        torrent: &mut TorrentSession,
        id: u8,
        payload: &[u8],
        now: u64,
    ) -> (r: PeerAction)
        requires
            old(torrent).wf(),
        ensures
            final(torrent).wf(),
            extension_answered(
                *old(self),
                *old(torrent),
                id,
                payload@,
                now,
                *final(self),
                *final(torrent),
                r,
            ),
    {
        let pex: u8 = match self.conn.peer_pex_id {
            Some(p) => p,
            None => 1,
        };
        let ours: bool = match self.conn.peer_metadata_id {
            Some(m) => m == id,
            None => false,
        };
        if id == pex {
            let (added, _) = PeerMessage::parse_pex_payload(payload);
            let mut i: usize = 0;
            while i < added.len()
                invariant
                    i <= added.len(),
                    *self == (PeerSession { known_peers: self.known_peers, ..*old(self) }),
                    self.known_peers@ == with_told(
                        old(self).known_peers@,
                        added@,
                        old(self).conn.addr,
                        i as int,
                    ),
                decreases added.len() - i,
            {
                let p = added[i];
                if p != self.conn.addr && !contains_addr(&self.known_peers, p) {
                    self.known_peers.push(p);
                }
                i += 1;
            }
            PeerAction::Nothing
        } else if ours {
            let (kind, piece, total, data) = PeerMessage::parse_metadata_message(payload);
            if kind == 0 {
                self.on_metadata_request(torrent, id, piece, now)
            } else if kind == 1 {
                self.on_metadata_data(torrent, id, piece, total, data, now)
            } else if kind == 2 {
                drop_sizes(&mut self.conn.metadata_sent_requests, piece);
                self.conn.metadata_reject_until = Some(now.saturating_add(METADATA_BACKOFF));
                PeerAction::Nothing
            } else {
                PeerAction::Nothing
            }
        } else {
            PeerAction::Nothing
        }
    }

    fn on_metadata_request(
        &mut self,
        torrent: &TorrentSession,
        id: u8,
        piece: usize,
        now: u64,
    ) -> (r: PeerAction)
        ensures
            metadata_request_answered(
                *old(self),
                *torrent,
                id,
                piece,
                now,
                *final(self),
                *torrent,
                r,
            ),
    {
        let bytes = match &torrent.torrent_bytes {
            Some(b) => b,
            None => {
                let payload = PeerMessage::build_metadata_reject(piece);
                return PeerAction::Send(PeerMessage::Extended { id, payload });
            },
        };
        let info = match extract_info_raw(bytes.as_slice()) {
            Ok(i) => i,
            Err(_) => {
                return PeerAction::Nothing;
            },
        };
        let size: usize = BLOCK_SIZE as usize;
        let count: usize = if info.len() % size == 0 {
            info.len() / size
        } else {
            info.len() / size + 1
        };
        let rested: bool = match self.conn.metadata_last_response {
            Some(t) => now.saturating_sub(t) > METADATA_GAP,
            None => true,
        };
        if piece < count && rested {
            let start: usize = piece * size;
            let end: usize = if info.len() - start > size {
                start + size
            } else {
                info.len()
            };
            let chunk = vstd::slice::slice_subrange(info, start, end);
            assert(chunk@ =~= metadata_chunk(info@, piece as int));
            let total: Option<usize> = if piece == 0 {
                Some(info.len())
            } else {
                None
            };
            let payload = PeerMessage::build_metadata_data(piece, total, chunk);
            self.conn.metadata_last_response = Some(now);
            PeerAction::Send(PeerMessage::Extended { id, payload })
        } else {
            let payload = PeerMessage::build_metadata_reject(piece);
            PeerAction::Send(PeerMessage::Extended { id, payload })
        }
    }

    fn on_metadata_data(
        &mut self,
        torrent: &mut TorrentSession,
        id: u8,
        piece: usize,
        total: usize,
        data: Vec<u8>,
        now: u64,
    ) -> (r: PeerAction)
        requires
            old(torrent).wf(),
        ensures
            final(torrent).wf(),
            metadata_data_answered(
                *old(self),
                *old(torrent),
                id,
                piece,
                total,
                data@,
                now,
                *final(self),
                *final(torrent),
                r,
            ),
    {
        let k: usize = match position_of(&self.conn.metadata_sent_requests, piece) {
            Some(k) => k,
            None => {
                return PeerAction::Nothing;
            },
        };
        proof {
            let asked = self.conn.metadata_sent_requests@;
            assert(asked.contains(piece));
            asked.index_of_first_ensures(piece);
            assert(asked.index_of_first(piece) == Some(k as int));
        }
        self.conn.metadata_sent_requests.swap_remove(k);
        let waiting: bool = match self.conn.metadata_reject_until {
            Some(t) => t > now,
            None => false,
        };
        let identity = torrent.info_hash;
        match absorb_metadata(&mut torrent.metadata_state, identity, piece, total, data) {
            Absorbed::Nothing => PeerAction::Nothing,
            Absorbed::Next(next) => {
                if !waiting {
                    self.conn.metadata_sent_requests.push(next);
                    let payload = PeerMessage::build_metadata_request(next);
                    PeerAction::Send(PeerMessage::Extended { id, payload })
                } else {
                    PeerAction::Nothing
                }
            },
            Absorbed::Complete(info) => PeerAction::Assembled(info),
        }
    }

    fn on_piece(&mut self, torrent: &mut TorrentSession, index: u32, begin: u32, data: Vec<u8>) -> (r:
        PeerAction)
        requires
            old(torrent).wf(),
        ensures
            final(torrent).wf(),
            block_answered(
                *old(self),
                *old(torrent),
                index,
                begin,
                data@,
                *final(self),
                *final(torrent),
                r,
            ),
    {
        self.pending_requests = self.pending_requests.saturating_sub(1);
        drop_offsets(&mut self.issued_by_us, begin);
        let n: u64 = data.len() as u64;
        torrent.total_downloaded = torrent.total_downloaded.wrapping_add(n);
        add_download(&mut torrent.peer_choke_stats, self.conn.addr, n);
        let current: bool = match self.current_piece_index {
            Some(i) => i == index,
            None => false,
        };
        if current {
            PeerAction::Collect { begin, data }
        } else {
            PeerAction::Nothing
        }
    }

    fn on_request(&self, torrent: &TorrentSession, index: u32, begin: u32, length: u32) -> (r:
        PeerAction)
        requires
            torrent.wf(),
            torrent.piece_manager.num_pieces > 0 ==> torrent.piece_manager.piece_length > 0,
        ensures
            if servable(*self, torrent.piece_manager, index, begin, length) {
                r == (PeerAction::Serve {
                    index,
                    begin,
                    length,
                    piece_size: torrent.piece_manager.size_of(index as int) as u64,
                })
            } else {
                r is Nothing
            },
    {
        if self.conn.am_choking {
            return PeerAction::Nothing;
        }
        if index >= torrent.piece_manager.num_pieces || length == 0 || length > BLOCK_SIZE * 2 {
            return PeerAction::Nothing;
        }
        if !torrent.piece_manager.have_piece(index) {
            return PeerAction::Nothing;
        }
        let piece_size: u64 = torrent.piece_manager.piece_size(index);
        if begin as u64 + length as u64 > piece_size {
            return PeerAction::Nothing;
        }
        PeerAction::Serve { index, begin, length, piece_size }
    }

    /// The message that sends a block of a piece that was read.
    pub fn serve_block(index: u32, begin: u32, length: u32, piece_data: &[u8]) -> (r: PeerMessage)
        requires
            begin + length <= piece_data.len(),
        ensures
            r@ == (Message::Piece {
                index,
                begin,
                data: piece_data@.subrange(begin as int, begin + length),
            }),
    {
        let start: usize = begin as usize;
        let block = copy_range(piece_data, start, start + length as usize);
        PeerMessage::Piece { index, begin, data: block }
    }

    /// Adds a block to the collector of the current piece. When that completes
    /// the piece, its data is given to be checked, and the peer is free for
    /// another piece.
    pub fn on_block(&mut self, collector: &mut PieceCollector, begin: u32, data: Vec<u8>) -> (r: Option<
        Vec<u8>,
    >)
        requires
            old(collector).piece_size <= usize::MAX,
        ensures
            final(collector).index == old(collector).index,
            final(collector).piece_size == old(collector).piece_size,
            final(collector).expected_hash == old(collector).expected_hash,
            final(collector).num_blocks == old(collector).num_blocks,
            old(collector).blocks@.contains_key(begin) ==> *final(collector) == *old(collector),
            !old(collector).blocks@.contains_key(begin) ==> final(collector).blocks@
                == old(collector).blocks@.insert(begin, data) && final(collector).issued@
                == old(collector).issued@.remove(begin),
            match r {
                None => !final(collector).complete() && *final(self) == *old(self),
                Some(v) => {
                    &&& final(collector).complete()
                    &&& exists|offsets: Seq<u32>|
                        sorted_offsets(final(collector).blocks@, offsets) && v@ == cut(
                            #[trigger] concatenated(final(collector).blocks@, offsets),
                            final(collector).piece_size as int,
                        )
                    &&& final(self).issued_by_us@.len() == 0
                    &&& *final(self) == (PeerSession {
                        current_piece_index: None,
                        pending_requests: 0,
                        total_sent: 0,
                        issued_by_us: final(self).issued_by_us,
                        ..*old(self)
                    })
                },
            },
    {
        if !collector.add_block(begin, data) {
            return None;
        }
        let piece = collector.assemble();
        self.current_piece_index = None;
        self.pending_requests = 0;
        self.total_sent = 0;
        self.issued_by_us = Vec::new();
        piece
    }

    /// Ends the exchange: the blocks that were requested and have not arrived
    /// are free for others.
    pub fn close_collector(&self, collector: &mut PieceCollector)
        ensures
            final(collector).issued@ == old(collector).issued@.remove_keys(
                self.issued_by_us@.to_set(),
            ),
            final(collector).blocks == old(collector).blocks,
            final(collector).index == old(collector).index,
            final(collector).piece_size == old(collector).piece_size,
            final(collector).expected_hash == old(collector).expected_hash,
            final(collector).num_blocks == old(collector).num_blocks,
    {
        collector.release(&self.issued_by_us);
    }

    /// Ends the exchange: the current piece is given up, and the peer is
    /// forgotten.
    pub fn close(&self, torrent: &mut TorrentSession)
        requires
            old(torrent).wf(),
        ensures
            final(torrent).wf(),
            final(torrent).peer_choke_stats@ == old(torrent).peer_choke_stats@.remove(
                self.conn.addr,
            ),
            final(torrent).piece_manager.in_progress@ == match self.current_piece_index {
                Some(i) => old(torrent).piece_manager.in_progress@.remove(i),
                None => old(torrent).piece_manager.in_progress@,
            },
            *final(torrent) == (TorrentSession {
                peer_choke_stats: final(torrent).peer_choke_stats,
                piece_manager: PieceManager {
                    in_progress: final(torrent).piece_manager.in_progress,
                    ..old(torrent).piece_manager
                },
                ..*old(torrent)
            }),
    {
        if let Some(i) = self.current_piece_index {
            torrent.piece_manager.abort_piece(i);
        }
        torrent.peer_choke_stats.remove(self.conn.addr);
    }
}

/// What came of a piece of metadata.
enum Absorbed {
    Nothing,
    Next(usize),
    Complete(Vec<u8>),
}

/// Takes a piece of metadata in.
fn absorb_metadata(
    state: &mut Option<MetadataState>,
    identity: InfoHash,
    piece: usize,
    total: usize,
    data: Vec<u8>,
) -> (r: Absorbed)
    ensures
        ({
            let (m, outcome) = metadata_step(
                opt_metadata(*old(state)),
                identity@,
                piece as int,
                total as int,
                data@,
            );
            &&& opt_metadata(*final(state)) == m
            &&& match (r, outcome) {
                (Absorbed::Nothing, MetadataOutcome::Nothing) => true,
                (Absorbed::Next(n), MetadataOutcome::Next(i)) => n == i,
                (Absorbed::Complete(v), MetadataOutcome::Complete(info)) => v@ == info,
                _ => false,
            }
        }),
{
    let mut ms = match state.take() {
        Some(ms) => ms,
        None => {
            return Absorbed::Nothing;
        },
    };
    if piece == 0 && total > 0 {
        ms.set_total_size(total);
    }
    if piece == 0 && ms.total_size == 0 {
        *state = Some(ms);
        return Absorbed::Nothing;
    }
    if ms.store_piece(piece, data) {
        if let Some(info) = ms.assemble() {
            if ms.verify(info.as_slice()) {
                *state = None;
                return Absorbed::Complete(info);
            }
        }
        *state = Some(MetadataState::new(identity));
        return Absorbed::Nothing;
    }
    let next: bool = ms.num_pieces > 0 && piece < ms.num_pieces - 1;
    *state = Some(ms);
    if next {
        Absorbed::Next(piece + 1)
    } else {
        Absorbed::Nothing
    }
}

/// Whether a piece's data is what the torrent says.
pub fn piece_matches(data: &[u8], expected_hash: &[u8; 20]) -> (r: bool)
    ensures
        r == (sha1_of(data@) == expected_hash@),
{
    let digest = sha1_digest(data);
    crate::bytes::bytes_equal(digest.as_slice(), expected_hash.as_slice())
}

/// What came of checking and writing a complete piece.
#[derive(Debug, Clone, Copy, PartialEq, Eq, Structural)]
pub enum PieceCheck {
    /// The data was right and was written.
    Written,
    /// The data was right but could not be written.
    WriteFailed,
    /// The data was wrong.
    Mismatch,
}

impl TorrentSession {
    /// Records what came of a complete piece. A piece that failed is collected
    /// again, unless another copy of it was right.
    pub fn piece_checked(&mut self, index: u32, check: PieceCheck)
        requires
            old(self).wf(),
            index < old(self).piece_manager.num_pieces,
        ensures
            final(self).wf(),
            final(self).piece_manager.have@ == if check == PieceCheck::Written {
                old(self).piece_manager.have@.update(index as int, true)
            } else {
                old(self).piece_manager.have@
            },
            final(self).piece_manager.in_progress@ == if check == PieceCheck::Mismatch && old(self).piece_manager.have@[index as int] {
                old(self).piece_manager.in_progress@
            } else {
                old(self).piece_manager.in_progress@.remove(index)
            },
            final(self).piece_manager.piece_availability@ == if check == PieceCheck::Written {
                seen_once_more(old(self).piece_manager.piece_availability@, index as int)
            } else {
                old(self).piece_manager.piece_availability@
            },
            *final(self) == (TorrentSession {
                piece_manager: PieceManager {
                    have: final(self).piece_manager.have,
                    in_progress: final(self).piece_manager.in_progress,
                    piece_availability: final(self).piece_manager.piece_availability,
                    ..old(self).piece_manager
                },
                ..*old(self)
            }),
    {
        match check {
            PieceCheck::Written => {
                self.piece_manager.mark_piece_complete(index);
            },
            PieceCheck::WriteFailed => {
                self.piece_manager.abort_piece(index);
            },
            PieceCheck::Mismatch => {
                if !self.piece_manager.have_piece(index) {
                    self.piece_manager.abort_piece(index);
                }
            },
        }
    }

    /// Counts bytes that were sent.
    pub fn note_upload(&mut self, n: u64)
        ensures
            *final(self) == (TorrentSession {
                total_uploaded: ((old(self).total_uploaded + n) % 0x1_0000_0000_0000_0000) as u64,
                ..*old(self)
            }),
    {
        self.total_uploaded = self.total_uploaded.wrapping_add(n);
    }
}

} // verus!

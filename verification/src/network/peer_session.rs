//! What a session does with one connected peer.
//!
//! The peer's messages and the passing of time come in; messages to send and
//! other actions go out. Times are in nanoseconds from a fixed start.

use crate::bencode::grammar::encode;
use crate::bencode::Bencode;
use crate::bitfield::{field_size, has_bit};
use crate::net::SocketAddrV4;
use crate::network::peers::{contains_addr, PeerStats, PeerTable};
use crate::network::session::TorrentSession;
use crate::outside::sha1_of;
use crate::peer::connection::PeerConnection;
use crate::peer::extension::{
    exchange_entries, metadata_data_entries, metadata_entries, our_handshake,
};
use crate::peer::message::{Message, PeerMessage};
use crate::peer::metadata::{
    all_arrived, first_missing, fresh_metadata, metadata_chunk, MetadataModel, MetadataState,
};
use crate::piece::collector::PieceCollector;
use crate::piece::manager::PieceManager;
use vstd::prelude::*;

verus! {

/// How long a quiet connection is left before a keep-alive is sent.
pub const KEEPALIVE_AFTER: u64 = 120_000_000_000;

/// How often known peers are passed on.
pub const PEX_SEND_AFTER: u64 = 10_000_000_000;

/// How often peers that were learned are called.
pub const PEX_DRAIN_AFTER: u64 = 15_000_000_000;

/// How many peers are passed on at once.
pub const PEX_SEND_LIMIT: usize = 50;

/// How many learned peers are called at once.
pub const PEX_DRAIN_LIMIT: usize = 20;

/// The least time between two pieces of metadata sent to a peer.
pub const METADATA_GAP: u64 = 100_000_000;

/// How long no metadata is asked of a peer that refused some.
pub const METADATA_BACKOFF: u64 = 60_000_000_000;

/// The state of the exchange with a connected peer.
pub struct PeerSession {
    pub conn: PeerConnection,
    /// How many blocks of the current piece were requested.
    pub total_sent: u32,
    /// The piece whose blocks are requested from the peer.
    pub current_piece_index: Option<u32>,
    /// How many requests the peer has not answered.
    pub pending_requests: u32,
    /// How many blocks the current piece has.
    pub blocks_in_piece: u32,
    /// How many requests may be open at once.
    pub max_pipeline: u32,
    /// The offsets that were requested and have not arrived.
    pub issued_by_us: Vec<u32>,
    pub keepalive_timer: u64,
    pub last_pex_send: u64,
    pub last_pex_drain: u64,
    /// The peers that the peer told about.
    pub known_peers: Vec<SocketAddrV4>,
    /// The told peers that were called already.
    pub already_dialed: Vec<SocketAddrV4>,
}

/// What is to be done about a message.
pub enum PeerAction {
    /// Nothing more.
    Nothing,
    /// Send a message to the peer.
    Send(PeerMessage),
    /// Add a block to the collector of the current piece.
    Collect { begin: u32, data: Vec<u8> },
    /// Read a piece, and send a block of it to the peer.
    Serve { index: u32, begin: u32, length: u32, piece_size: u64 },
    /// Take over the complete info dictionary and end the connection.
    Assembled(Vec<u8>),
    /// Ask the DHT node at this port of the peer's address.
    PingDht(u16),
}

/// The time from `t` to `now`; none if `t` lies ahead.
pub open spec fn elapsed(now: u64, t: u64) -> int {
    if now >= t {
        now - t
    } else {
        0
    }
}

/// A sequence without the elements equal to `x`.
pub open spec fn without<T>(s: Seq<T>, x: T) -> Seq<T>
    decreases s.len(),
{
    if s.len() == 0 {
        s
    } else if s.last() == x {
        without(s.drop_last(), x)
    } else {
        without(s.drop_last(), x).push(s.last())
    }
}

/// Some peers of a list, at most `limit`: those of the first `n` that are not
/// the given one and not among those passed over.
pub open spec fn others(
    known: Seq<SocketAddrV4>,
    me: SocketAddrV4,
    passed: Seq<SocketAddrV4>,
    n: int,
    limit: int,
) -> Seq<SocketAddrV4>
    decreases n,
{
    if n <= 0 {
        seq![]
    } else {
        let before = others(known, me, passed, n - 1, limit);
        if before.len() < limit && known[n - 1] != me && !passed.contains(known[n - 1]) {
            before.push(known[n - 1])
        } else {
            before
        }
    }
}

/// The known peers with the first `n` of those told added, each once.
pub open spec fn with_told(
    known: Seq<SocketAddrV4>,
    told: Seq<SocketAddrV4>,
    me: SocketAddrV4,
    n: int,
) -> Seq<SocketAddrV4>
    decreases n,
{
    if n <= 0 {
        known
    } else {
        let before = with_told(known, told, me, n - 1);
        if told[n - 1] != me && !before.contains(told[n - 1]) {
            before.push(told[n - 1])
        } else {
            before
        }
    }
}

/// What comes of a piece of metadata.
pub enum MetadataOutcome {
    Nothing,
    /// The next piece is to be asked for.
    Next(int),
    /// The info dictionary is complete and has the right identity.
    Complete(Seq<u8>),
}

/// The metadata exchange after a piece arrived, and what comes of it. A
/// dictionary with the wrong identity is thrown away.
pub open spec fn metadata_step(
    state: Option<MetadataModel>,
    identity: Seq<u8>,
    piece: int,
    total: int,
    data: Seq<u8>,
) -> (Option<MetadataModel>, MetadataOutcome) {
    match state {
        None => (None, MetadataOutcome::Nothing),
        Some(m) => {
            let sized = if piece == 0 && total > 0 {
                m.resized(total)
            } else {
                m
            };
            if piece == 0 && sized.total_size == 0 {
                (Some(sized), MetadataOutcome::Nothing)
            } else {
                let stored = sized.stored(piece, data);
                if all_arrived(stored.arrived) {
                    if sha1_of(stored.assembled()) == stored.info_hash {
                        (None, MetadataOutcome::Complete(stored.assembled()))
                    } else {
                        (Some(fresh_metadata(identity)), MetadataOutcome::Nothing)
                    }
                } else if piece + 1 < stored.num_pieces {
                    (Some(stored), MetadataOutcome::Next(piece + 1))
                } else {
                    (Some(stored), MetadataOutcome::Nothing)
                }
            }
        },
    }
}

/// The model of an optional metadata exchange.
pub open spec fn opt_metadata(m: Option<MetadataState>) -> Option<MetadataModel> {
    match m {
        Some(s) => Some(s@),
        None => None,
    }
}

/// The piece of metadata to ask for: the first missing one.
pub open spec fn wanted_metadata(m: Option<MetadataModel>) -> int {
    match m {
        Some(s) => match first_missing(s.arrived, 0) {
            Some(i) => i,
            None => 0,
        },
        None => 0,
    }
}

/// No metadata is asked of the peer at this time.
pub open spec fn backing_off(until: Option<u64>, now: u64) -> bool {
    match until {
        Some(t) => t > now,
        None => false,
    }
}

/// The message that carries an extension payload.
pub open spec fn extended(id: u8, payload: Seq<u8>) -> Message {
    Message::Extended { id, payload }
}

/// The action sends this message and does nothing else.
pub open spec fn sends(action: PeerAction, m: Message) -> bool {
    action matches PeerAction::Send(s) && s@ == m
}

/// The payload of a request for metadata.
pub open spec fn request_payload(piece: int) -> Seq<u8> {
    encode(Bencode::Dict(metadata_entries(0, piece)))
}

/// The payload of a refusal of metadata.
pub open spec fn reject_payload(piece: int) -> Seq<u8> {
    encode(Bencode::Dict(metadata_entries(2, piece)))
}

/// The payload that sends a piece of an info dictionary; the first piece also
/// tells the size.
pub open spec fn data_payload(info: Seq<u8>, piece: usize) -> Seq<u8> {
    encode(
        Bencode::Dict(
            metadata_data_entries(
                (piece as i64) as int,
                if piece == 0 {
                    Some((info.len() as usize as i64) as int)
                } else {
                    None
                },
            ),
        ),
    ) + metadata_chunk(info, piece as int)
}

/// The message that tells which pieces are at hand.
pub open spec fn tells_pieces(m: Message, pm: PieceManager) -> bool {
    match m {
        Message::Bitfield(b) => b.len() == field_size(pm.num_pieces as int) && forall|i: int|
            #[trigger] has_bit(b, i) == (0 <= i < pm.num_pieces && pm.have@[i]),
        _ => false,
    }
}

/// The statistics of the peers after one peer's interest changed.
pub open spec fn with_interest(
    t: Map<SocketAddrV4, PeerStats>,
    a: SocketAddrV4,
    interested: bool,
) -> Map<SocketAddrV4, PeerStats> {
    if t.contains_key(a) {
        t.insert(a, PeerStats { peer_interested: interested, ..t[a] })
    } else {
        t
    }
}

/// The statistics of the peers after one peer sent data.
pub open spec fn with_download(
    t: Map<SocketAddrV4, PeerStats>,
    a: SocketAddrV4,
    n: u64,
) -> Map<SocketAddrV4, PeerStats> {
    if t.contains_key(a) {
        t.insert(
            a,
            PeerStats {
                downloaded: if t[a].downloaded + n > u64::MAX {
                    u64::MAX
                } else {
                    (t[a].downloaded + n) as u64
                },
                ..t[a]
            },
        )
    } else {
        t
    }
}

/// A session goes over to what the last choking round decided, with the message
/// that tells the peer.
pub open spec fn follows_round(
    s0: PeerSession,
    t: TorrentSession,
    s1: PeerSession,
    r: Option<PeerMessage>,
) -> bool {
    let table = t.peer_choke_stats@;
    let a = s0.conn.addr;
    let choke = if table.contains_key(a) {
        table[a].am_choking
    } else {
        true
    };
    if choke == s0.conn.am_choking {
        r is None && s1 == s0
    } else {
        &&& r matches Some(m) && m@ == if choke {
            Message::Choke
        } else {
            Message::Unchoke
        }
        &&& s1 == (PeerSession {
            conn: PeerConnection { am_choking: choke, ..s0.conn },
            pending_requests: if choke {
                0
            } else {
                s0.pending_requests
            },
            ..s0
        })
    }
}

/// A quiet connection is kept alive.
pub open spec fn kept_alive(
    s0: PeerSession,
    now: u64,
    s1: PeerSession,
    r: Option<PeerMessage>,
) -> bool {
    if elapsed(now, s0.keepalive_timer) > KEEPALIVE_AFTER {
        &&& r matches Some(m) && m@ == Message::KeepAlive
        &&& s1 == (PeerSession { keepalive_timer: now, ..s0 })
    } else {
        r is None && s1 == s0
    }
}

/// Learned peers are called.
pub open spec fn drained(
    s0: PeerSession,
    enabled: bool,
    now: u64,
    s1: PeerSession,
    r: Seq<SocketAddrV4>,
) -> bool {
    if enabled && elapsed(now, s0.last_pex_drain) > PEX_DRAIN_AFTER && s0.known_peers@.len() > 0 {
        &&& r == others(
            s0.known_peers@,
            s0.conn.addr,
            s0.already_dialed@,
            s0.known_peers@.len() as int,
            PEX_DRAIN_LIMIT as int,
        )
        &&& s1.already_dialed@ == s0.already_dialed@ + r
        &&& s1 == (PeerSession { last_pex_drain: now, already_dialed: s1.already_dialed, ..s0 })
    } else {
        r.len() == 0 && s1 == s0
    }
}

/// A torrent that differs only in how often pieces were seen.
pub open spec fn same_but_availability(a: TorrentSession, b: TorrentSession) -> bool {
    &&& a == (TorrentSession { piece_manager: a.piece_manager, ..b })
    &&& a.piece_manager.same_layout(&b.piece_manager)
    &&& a.piece_manager.have == b.piece_manager.have
    &&& a.piece_manager.in_progress == b.piece_manager.in_progress
    &&& a.piece_manager.piece_priorities == b.piece_manager.piece_priorities
}

pub(crate) fn set_interest(table: &mut PeerTable, a: SocketAddrV4, interested: bool)
    requires
        old(table).wf(),
    ensures
        final(table).wf(),
        final(table)@ == with_interest(old(table)@, a, interested),
{
    if let Some(s) = table.get(a) {
        table.insert(
            a,
            PeerStats {
                downloaded: s.downloaded,
                am_choking: s.am_choking,
                peer_interested: interested,
            },
        );
    }
}

pub(crate) fn add_download(table: &mut PeerTable, a: SocketAddrV4, n: u64)
    requires
        old(table).wf(),
    ensures
        final(table).wf(),
        final(table)@ == with_download(old(table)@, a, n),
{
    if let Some(s) = table.get(a) {
        table.insert(
            a,
            PeerStats {
                downloaded: s.downloaded.saturating_add(n),
                am_choking: s.am_choking,
                peer_interested: s.peer_interested,
            },
        );
    }
}

pub(crate) fn position_of(list: &Vec<usize>, x: usize) -> (r: Option<usize>)
    ensures
        match r {
            Some(i) => i < list@.len() && list@[i as int] == x && forall|k: int|
                0 <= k < i ==> list@[k] != x,
            None => !list@.contains(x),
        },
{
    let mut i: usize = 0;
    while i < list.len()
        invariant
            i <= list.len(),
            forall|k: int| 0 <= k < i ==> list@[k] != x,
        decreases list.len() - i,
    {
        if list[i] == x {
            return Some(i);
        }
        i += 1;
    }
    None
}

pub(crate) fn drop_sizes(list: &mut Vec<usize>, x: usize)
    ensures
        final(list)@ == without(old(list)@, x),
{
    let ghost all = list@;
    let mut out: Vec<usize> = Vec::new();
    let mut i: usize = 0;
    assert(all.take(0) =~= seq![]);
    while i < list.len()
        invariant
            i <= list.len(),
            list@ == all,
            out@ == without(all.take(i as int), x),
        decreases list.len() - i,
    {
        assert(all.take(i + 1).drop_last() =~= all.take(i as int));
        if list[i] != x {
            out.push(list[i]);
        }
        i += 1;
    }
    assert(all.take(i as int) =~= all);
    *list = out;
}

pub(crate) fn drop_offsets(list: &mut Vec<u32>, x: u32)
    ensures
        final(list)@ == without(old(list)@, x),
{
    let ghost all = list@;
    let mut out: Vec<u32> = Vec::new();
    let mut i: usize = 0;
    assert(all.take(0) =~= seq![]);
    while i < list.len()
        invariant
            i <= list.len(),
            list@ == all,
            out@ == without(all.take(i as int), x),
        decreases list.len() - i,
    {
        assert(all.take(i + 1).drop_last() =~= all.take(i as int));
        if list[i] != x {
            out.push(list[i]);
        }
        i += 1;
    }
    assert(all.take(i as int) =~= all);
    *list = out;
}

fn contains_offset(list: &Vec<u32>, x: u32) -> (r: bool)
    ensures
        r == list@.contains(x),
{
    let mut i: usize = 0;
    while i < list.len()
        invariant
            i <= list.len(),
            forall|k: int| 0 <= k < i ==> list@[k] != x,
        decreases list.len() - i,
    {
        if list[i] == x {
            return true;
        }
        i += 1;
    }
    false
}

fn choose_peers(
    known: &Vec<SocketAddrV4>,
    me: SocketAddrV4,
    passed: &Vec<SocketAddrV4>,
    limit: usize,
) -> (r: Vec<SocketAddrV4>)
    ensures
        r@ == others(known@, me, passed@, known@.len() as int, limit as int),
{
    let mut out: Vec<SocketAddrV4> = Vec::new();
    let mut i: usize = 0;
    while i < known.len()
        invariant
            i <= known.len(),
            out@ == others(known@, me, passed@, i as int, limit as int),
        decreases known.len() - i,
    {
        if out.len() < limit && known[i] != me && !contains_addr(passed, known[i]) {
            out.push(known[i]);
        }
        i += 1;
    }
    out
}

/// The piece that is to be collected from a peer next.
pub enum PieceStart {
    /// No piece is to be had.
    Nothing,
    /// A piece with a collector of its own.
    Started(PieceCollector),
    /// A piece whose collector exists already and is shared.
    Shared(u32),
}

/// What starting the first of some candidate pieces does. In the last stage of
/// a download a piece in progress is shared.
pub open spec fn candidate_started(
    old_pm: PieceManager,
    new_pm: PieceManager,
    candidates: Seq<u32>,
    r: PieceStart,
) -> bool {
    if candidates.len() == 0 {
        r is Nothing && new_pm == old_pm
    } else {
        let i = candidates[0];
        &&& new_pm.wf()
        &&& new_pm.same_layout(&old_pm)
        &&& new_pm.have == old_pm.have
        &&& new_pm.piece_availability == old_pm.piece_availability
        &&& new_pm.piece_priorities == old_pm.piece_priorities
        &&& new_pm.in_progress@ == old_pm.in_progress@.insert(i)
        &&& if old_pm.in_progress@.contains(i) {
            r == PieceStart::Shared(i)
        } else {
            r matches PieceStart::Started(c) && old_pm.fresh_collector(i, c)
        }
    }
}

impl PeerSession {
    /// The exchange with a peer right after the handshakes, with the messages
    /// that open it: what is at hand, interest, and the extensions.
    pub fn open(torrent: &mut TorrentSession, addr: SocketAddrV4, pipeline_depth: u32, now: u64) -> (r:
        (PeerSession, Vec<PeerMessage>))
        requires
            old(torrent).wf(),
        ensures
            final(torrent).wf(),
            final(torrent).peer_choke_stats@ == old(torrent).peer_choke_stats@.insert(
                addr,
                PeerStats { downloaded: 0, am_choking: true, peer_interested: false },
            ),
            opt_metadata(final(torrent).metadata_state) == if !old(torrent).has_metadata() && old(torrent).metadata_state is None {
                Some(fresh_metadata(old(torrent).info_hash@))
            } else {
                opt_metadata(old(torrent).metadata_state)
            },
            *final(torrent) == (TorrentSession {
                peer_choke_stats: final(torrent).peer_choke_stats,
                metadata_state: final(torrent).metadata_state,
                ..*old(torrent)
            }),
            r.0.conn.addr == addr,
            r.0.conn.am_choking && r.0.conn.peer_choking,
            r.0.conn.am_interested && !r.0.conn.peer_interested,
            r.0.conn.bitfield@.len() == 0,
            r.0.conn.peer_pex_id is None && r.0.conn.peer_metadata_id is None,
            r.0.conn.metadata_reject_until is None && r.0.conn.metadata_last_response is None,
            r.0.conn.metadata_sent_requests@.len() == 0,
            r.0.total_sent == 0 && r.0.pending_requests == 0 && r.0.blocks_in_piece == 0,
            r.0.current_piece_index is None,
            r.0.max_pipeline == pipeline_depth,
            r.0.issued_by_us@.len() == 0,
            r.0.known_peers@.len() == 0 && r.0.already_dialed@.len() == 0,
            r.0.keepalive_timer == now && r.0.last_pex_send == now && r.0.last_pex_drain == now,
            ({
                let k: int = if old(torrent).has_metadata() {
                    1
                } else {
                    0
                };
                &&& r.1@.len() == 2 + k
                &&& old(torrent).has_metadata() ==> tells_pieces(
                    r.1@[0]@,
                    old(torrent).piece_manager,
                )
                &&& r.1@[k]@ == Message::Interested
                &&& r.1@[k + 1]@ == extended(
                    0,
                    encode(Bencode::Dict(our_handshake(pipeline_depth))),
                )
            }),
    {
        let mut conn = PeerConnection::new_connection(addr);
        let mut messages: Vec<PeerMessage> = Vec::new();
        if torrent.meta.num_pieces() > 0 {
            messages.push(PeerMessage::Bitfield(torrent.piece_manager.have_bitfield()));
        }
        messages.push(PeerMessage::Interested);
        conn.am_interested = true;
        let payload = PeerMessage::build_extended_handshake_payload(pipeline_depth);
        messages.push(PeerMessage::Extended { id: 0, payload });
        torrent.peer_choke_stats.insert(
            addr,
            PeerStats { downloaded: 0, am_choking: true, peer_interested: false },
        );
        if torrent.meta.num_pieces() == 0 && torrent.metadata_state.is_none() {
            torrent.metadata_state = Some(MetadataState::new(torrent.info_hash));
        }
        let session = PeerSession {
            conn,
            total_sent: 0,
            current_piece_index: None,
            pending_requests: 0,
            blocks_in_piece: 0,
            max_pipeline: pipeline_depth,
            issued_by_us: Vec::new(),
            keepalive_timer: now,
            last_pex_send: now,
            last_pex_drain: now,
            known_peers: Vec::new(),
            already_dialed: Vec::new(),
        };
        (session, messages)
    }

    /// Goes over to what the last choking round decided about the peer. A peer
    /// that is not listed is choked.
    pub fn choke_step(&mut self, torrent: &TorrentSession) -> (r: Option<PeerMessage>)
        ensures
            follows_round(*old(self), *torrent, *final(self), r),
    {
        let choke: bool = match torrent.peer_choke_stats.get(self.conn.addr) {
            Some(s) => s.am_choking,
            None => true,
        };
        if choke == self.conn.am_choking {
            return None;
        }
        self.conn.am_choking = choke;
        if choke {
            self.pending_requests = 0;
            Some(PeerMessage::Choke)
        } else {
            Some(PeerMessage::Unchoke)
        }
    }

    /// Sends a keep-alive when none was sent for two minutes.
    pub fn keepalive_step(&mut self, now: u64) -> (r: Option<PeerMessage>)
        ensures
            kept_alive(*old(self), now, *final(self), r),
    {
        if now.saturating_sub(self.keepalive_timer) > KEEPALIVE_AFTER {
            self.keepalive_timer = now;
            return Some(PeerMessage::KeepAlive);
        }
        None
    }

    /// Whether blocks may be requested from the peer.
    pub fn may_request(&self) -> (r: bool)
        ensures
            r == (!self.conn.peer_choking && self.pending_requests < self.max_pipeline),
    {
        !self.conn.peer_choking && self.pending_requests < self.max_pipeline
    }

    /// Starts the first of some candidate pieces, or shares its collector.
    pub fn start_candidate(pm: &mut PieceManager, candidates: &Vec<u32>) -> (r: PieceStart)
        requires
            old(pm).wf(),
            candidates@.len() > 0 ==> old(pm).sizes_defined() && candidates@[0]
                < old(pm).hashes@.len(),
        ensures
            candidate_started(*old(pm), *final(pm), candidates@, r),
    {
        if candidates.len() == 0 {
            return PieceStart::Nothing;
        }
        let i: u32 = candidates[0];
        match pm.try_start_piece(i) {
            Some(c) => PieceStart::Started(c),
            None => PieceStart::Shared(i),
        }
    }

    /// Chooses and starts a piece to collect from the peer. In the last stage
    /// of the download, if it is treated apart, every missing piece is a
    /// candidate, otherwise those that suit the peer best.
    pub fn start_piece(&self, pm: &mut PieceManager, endgame_mode: bool) -> (r: PieceStart)
        requires
            old(pm).wf(),
            old(pm).num_pieces > 0 ==> old(pm).piece_length > 0,
            old(pm).hashes@.len() >= old(pm).num_pieces,
        ensures
            endgame_mode && old(pm).last_stage() ==> candidate_started(
                *old(pm),
                *final(pm),
                old(pm).unfinished_below(old(pm).num_pieces as int),
                r,
            ),
            !(endgame_mode && old(pm).last_stage()) ==> exists|candidates: Seq<u32>| #[trigger]
                old(pm).offers(self.conn.bitfield@, candidates) && candidate_started(
                    *old(pm),
                    *final(pm),
                    candidates,
                    r,
                ),
    {
        if endgame_mode && pm.is_in_endgame() {
            let candidates = pm.get_endgame_pieces();
            proof {
                lemma_unfinished(*pm, pm.num_pieces as int);
            }
            Self::start_candidate(pm, &candidates)
        } else {
            let candidates = pm.select_piece(self.conn.bitfield.as_slice());
            proof {
                let bits = self.conn.bitfield@;
                let list = pm.wanted_below(bits, pm.num_pieces as int);
                let order = choose|order: Seq<usize>|
                    crate::sort::is_stable_order(pm.urgencies(list), order) && candidates@
                        == #[trigger] pm.picked(list, order, list.len() as int);
                lemma_wanted(*pm, bits, pm.num_pieces as int);
                lemma_picked(*pm, list, order, list.len() as int);
            }
            Self::start_candidate(pm, &candidates)
        }
    }

    /// Takes up a piece whose collector has the given number of blocks.
    pub fn begin_piece(&mut self, index: u32, num_blocks: u32)
        ensures
            *final(self) == (PeerSession {
                blocks_in_piece: num_blocks,
                total_sent: 0,
                current_piece_index: Some(index),
                ..*old(self)
            }),
    {
        self.blocks_in_piece = num_blocks;
        self.total_sent = 0;
        self.current_piece_index = Some(index);
    }

    /// How many blocks of the current piece are to be requested now.
    pub open spec fn room(&self) -> int {
        let blocks = self.blocks_in_piece - self.total_sent;
        let slots = self.max_pipeline - self.pending_requests;
        let least = if blocks < slots {
            blocks
        } else {
            slots
        };
        if least < 0 {
            0
        } else {
            least
        }
    }

    /// How many blocks of the current piece are to be requested now.
    pub fn wanted_blocks(&self) -> (r: usize)
        ensures
            r == self.room(),
    {
        let blocks: u32 = self.blocks_in_piece.saturating_sub(self.total_sent);
        let slots: u32 = self.max_pipeline.saturating_sub(self.pending_requests);
        if blocks < slots {
            blocks as usize
        } else {
            slots as usize
        }
    }

    /// The request for a block of the current piece, which counts as sent.
    pub fn request_block(&mut self, offset: u32, length: u32) -> (r: Option<PeerMessage>)
        ensures
            match old(self).current_piece_index {
                None => r is None && *final(self) == *old(self),
                Some(index) => {
                    &&& r matches Some(m) && m@ == (Message::Request {
                        index,
                        begin: offset,
                        length,
                    })
                    &&& final(self).pending_requests == if old(self).pending_requests < u32::MAX {
                        old(self).pending_requests + 1
                    } else {
                        u32::MAX as int
                    }
                    &&& final(self).total_sent == if old(self).total_sent < u32::MAX {
                        old(self).total_sent + 1
                    } else {
                        u32::MAX as int
                    }
                    &&& final(self).issued_by_us@ == if old(self).issued_by_us@.contains(offset) {
                        old(self).issued_by_us@
                    } else {
                        old(self).issued_by_us@.push(offset)
                    }
                    &&& *final(self) == (PeerSession {
                        pending_requests: final(self).pending_requests,
                        total_sent: final(self).total_sent,
                        issued_by_us: final(self).issued_by_us,
                        ..*old(self)
                    })
                },
            },
    {
        match self.current_piece_index {
            None => None,
            Some(index) => {
                self.pending_requests = self.pending_requests.saturating_add(1);
                self.total_sent = self.total_sent.saturating_add(1);
                if !contains_offset(&self.issued_by_us, offset) {
                    self.issued_by_us.push(offset);
                }
                Some(PeerMessage::Request { index, begin: offset, length })
            },
        }
    }

    /// Passes known peers on to the peer, every ten seconds.
    pub fn pex_send_step(&mut self, enabled: bool, now: u64) -> (r: Option<PeerMessage>)
        ensures
            if enabled && elapsed(now, old(self).last_pex_send) > PEX_SEND_AFTER && old(self).known_peers@.len() > 0 {
                let list = others(
                    old(self).known_peers@,
                    old(self).conn.addr,
                    seq![],
                    old(self).known_peers@.len() as int,
                    PEX_SEND_LIMIT as int,
                );
                &&& *final(self) == (PeerSession { last_pex_send: now, ..*old(self) })
                &&& if list.len() > 0 {
                    r matches Some(m) && m@ == extended(
                        1,
                        encode(Bencode::Dict(exchange_entries(list, seq![]))),
                    )
                } else {
                    r is None
                }
            } else {
                r is None && *final(self) == *old(self)
            },
    {
        if enabled && now.saturating_sub(self.last_pex_send) > PEX_SEND_AFTER
            && self.known_peers.len() > 0 {
            self.last_pex_send = now;
            let none: Vec<SocketAddrV4> = Vec::new();
            assert(none@ =~= seq![]);
            let list = choose_peers(&self.known_peers, self.conn.addr, &none, PEX_SEND_LIMIT);
            if list.len() > 0 {
                let payload = PeerMessage::build_pex_payload(list.as_slice(), none.as_slice());
                return Some(PeerMessage::Extended { id: 1, payload });
            }
        }
        None
    }

    /// The learned peers that are to be called now, every fifteen seconds;
    /// each is called once.
    pub fn pex_drain_step(&mut self, enabled: bool, now: u64) -> (r: Vec<SocketAddrV4>)
        ensures
            drained(*old(self), enabled, now, *final(self), r@),
    {
        let none: Vec<SocketAddrV4> = Vec::new();
        if enabled && now.saturating_sub(self.last_pex_drain) > PEX_DRAIN_AFTER
            && self.known_peers.len() > 0 {
            self.last_pex_drain = now;
            let list = choose_peers(
                &self.known_peers,
                self.conn.addr,
                &self.already_dialed,
                PEX_DRAIN_LIMIT,
            );
            let ghost before = self.already_dialed@;
            let mut i: usize = 0;
            assert(before + list@.take(0) =~= before);
            while i < list.len()
                invariant
                    i <= list.len(),
                    self.already_dialed@ == before + list@.take(i as int),
                    *self == (PeerSession {
                        last_pex_drain: now,
                        already_dialed: self.already_dialed,
                        ..*old(self)
                    }),
                decreases list.len() - i,
            {
                self.already_dialed.push(list[i]);
                i += 1;
                assert(self.already_dialed@ =~= before + list@.take(i as int));
            }
            assert(list@.take(i as int) =~= list@);
            return list;
        }
        none
    }
}

proof fn lemma_unfinished(pm: PieceManager, n: int)
    requires
        0 <= n <= pm.num_pieces,
    ensures
        forall|k: int|
            0 <= k < pm.unfinished_below(n).len() ==> #[trigger] pm.unfinished_below(n)[k] < n,
    decreases n,
{
    if n > 0 {
        lemma_unfinished(pm, n - 1);
        let before = pm.unfinished_below(n - 1);
        let all = pm.unfinished_below(n);
        assert forall|k: int| 0 <= k < all.len() implies #[trigger] all[k] < n by {
            if k < before.len() {
                assert(all[k] == before[k]);
            }
        }
    }
}

proof fn lemma_wanted(pm: PieceManager, bits: Seq<u8>, n: int)
    requires
        0 <= n <= pm.num_pieces,
    ensures
        forall|k: int|
            0 <= k < pm.wanted_below(bits, n).len() ==> #[trigger] pm.wanted_below(bits, n)[k] < n,
    decreases n,
{
    if n > 0 {
        lemma_wanted(pm, bits, n - 1);
        let before = pm.wanted_below(bits, n - 1);
        let all = pm.wanted_below(bits, n);
        assert forall|k: int| 0 <= k < all.len() implies #[trigger] all[k] < n by {
            if k < before.len() {
                assert(all[k] == before[k]);
            }
        }
    }
}

proof fn lemma_picked(pm: PieceManager, list: Seq<u32>, order: Seq<usize>, n: int)
    requires
        0 <= n <= list.len(),
        order.len() == list.len(),
        forall|i: int| 0 <= i < order.len() ==> #[trigger] order[i] < list.len(),
        forall|k: int| 0 <= k < list.len() ==> #[trigger] list[k] < pm.num_pieces,
    ensures
        forall|k: int|
            0 <= k < pm.picked(list, order, n).len() ==> #[trigger] pm.picked(list, order, n)[k]
                < pm.num_pieces,
    decreases n,
{
    if n > 0 {
        lemma_picked(pm, list, order, n - 1);
        let before = pm.picked(list, order, n - 1);
        let all = pm.picked(list, order, n);
        assert(order[n - 1] < list.len());
        assert forall|k: int| 0 <= k < all.len() implies #[trigger] all[k] < pm.num_pieces by {
            if k < before.len() {
                assert(all[k] == before[k]);
            } else {
                assert(all[k] == list[order[n - 1] as int]);
            }
        }
    }
}

} // verus!

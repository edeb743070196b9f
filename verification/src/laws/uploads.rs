//! What a peer is given, and what is noted of it.

use crate::bencode::grammar::{info_raw, Fault};
use crate::bitfield::has_bit;
use crate::laws::exchange::{law_first_missing, law_metadata_cut, second};
use crate::laws::{lemma_says_piece, says_piece};
use crate::network::peer_messages::{answered, seen_field};
use crate::network::peer_session::{request_payload, tells_pieces, PeerAction, PeerSession};
use crate::network::session::TorrentSession;
use crate::peer::extension::{extension_ids, metadata_message};
use crate::peer::laws::{law_metadata_data, law_metadata_header};
use crate::peer::message::Message;
use crate::peer::metadata::{metadata_chunk, metadata_pieces, MetadataState};
use crate::piece::manager::PieceManager;
use vstd::prelude::*;

verus! {

/// Where the bytes of a torrent end in its pieces: each piece but the last is
/// full, and the last holds what is left.
pub open spec fn cut_up(pm: PieceManager) -> bool {
    &&& pm.num_pieces > 0
    &&& pm.piece_length > 0
    &&& (pm.num_pieces - 1) * pm.piece_length < pm.total_size
    &&& pm.total_size <= pm.num_pieces * pm.piece_length
}

/// The bytes of a piece.
pub open spec fn piece_bytes(pm: PieceManager, index: int) -> int {
    if index == pm.num_pieces - 1 {
        pm.total_size - index * pm.piece_length
    } else {
        pm.piece_length as int
    }
}

pub proof fn lemma_piece_bytes(pm: PieceManager, index: int)
    requires
        cut_up(pm),
        0 <= index < pm.num_pieces,
    ensures
        pm.size_of(index) == piece_bytes(pm, index),
        0 < piece_bytes(pm, index) <= pm.piece_length,
{
    let n = pm.num_pieces as int;
    let l = pm.piece_length as int;
    let t = pm.total_size as int;
    let rest = t - (n - 1) * l;
    assert(n * l == (n - 1) * l + l) by (nonlinear_arith);
    if rest == l {
        assert(t == n * l);
        vstd::arithmetic::div_mod::lemma_mod_multiples_basic(n, l);
    } else {
        vstd::arithmetic::div_mod::lemma_fundamental_div_mod_converse(t, l, n - 1, rest);
    }
}

/// Every block of a piece at hand is given to a peer that is not choked: the
/// blocks of sixteen kibibytes one after the other, the last of which is as
/// long as what is left.
pub proof fn law_own_blocks_served(
    s0: PeerSession,
    t0: TorrentSession,
    index: u32,
    begin: u32,
    length: u32,
    k: int,
    now: u64,
    s1: PeerSession,
    t1: TorrentSession,
    act: PeerAction,
)
    requires
        cut_up(t0.piece_manager),
        index < t0.piece_manager.num_pieces,
        t0.piece_manager.have@[index as int],
        !s0.conn.am_choking,
        0 <= k,
        begin == 16384 * k,
        begin < piece_bytes(t0.piece_manager, index as int),
        length == if piece_bytes(t0.piece_manager, index as int) - begin < 16384 {
            piece_bytes(t0.piece_manager, index as int) - begin
        } else {
            16384
        },
        answered(s0, t0, Message::Request { index, begin, length }, now, s1, t1, act),
    ensures
        act == (PeerAction::Serve {
            index,
            begin,
            length,
            piece_size: piece_bytes(t0.piece_manager, index as int) as u64,
        }),
{
    lemma_piece_bytes(t0.piece_manager, index as int);
}

/// What a peer may ask for: any bytes within a piece at hand, up to thirty-two
/// kibibytes at once. Whatever else it asks for, or if it is choked, it gets
/// nothing; and asking changes nothing.
pub proof fn law_requests(
    s0: PeerSession,
    t0: TorrentSession,
    index: u32,
    begin: u32,
    length: u32,
    now: u64,
    s1: PeerSession,
    t1: TorrentSession,
    act: PeerAction,
)
    requires
        cut_up(t0.piece_manager),
        answered(s0, t0, Message::Request { index, begin, length }, now, s1, t1, act),
    ensures
        s1 == s0 && t1 == t0,
        act is Serve <==> (!s0.conn.am_choking && index < t0.piece_manager.num_pieces
            && t0.piece_manager.have@[index as int] && 1 <= length <= 32768 && begin + length
            <= piece_bytes(t0.piece_manager, index as int)),
        act is Serve || act is Nothing,
{
    if index < t0.piece_manager.num_pieces {
        lemma_piece_bytes(t0.piece_manager, index as int);
    }
}

/// One more, up to the most that can be counted.
pub open spec fn counted_once(before: u32, after: u32) -> bool {
    if before < 0xffff_ffff {
        after == before + 1
    } else {
        after == before
    }
}

/// A peer that tells of one piece is known to have that piece and those it was
/// known to have, and the piece alone is counted once more, unless that was
/// known; a number past the last piece changes nothing.
pub proof fn law_piece_told(
    s0: PeerSession,
    t0: TorrentSession,
    piece: u32,
    now: u64,
    s1: PeerSession,
    t1: TorrentSession,
    act: PeerAction,
    j: int,
)
    requires
        t0.wf(),
        answered(s0, t0, Message::Have(piece), now, s1, t1, act),
        0 <= j < t0.piece_manager.num_pieces,
    ensures
        act is Nothing,
        says_piece(s1.conn.bitfield@, j) == (j == piece || says_piece(s0.conn.bitfield@, j)),
        t1.piece_manager.have@ == t0.piece_manager.have@,
        if j == piece && !says_piece(s0.conn.bitfield@, j) {
            counted_once(
                t0.piece_manager.piece_availability@[j],
                t1.piece_manager.piece_availability@[j],
            )
        } else {
            t1.piece_manager.piece_availability@[j] == t0.piece_manager.piece_availability@[j]
        },
{
    lemma_says_piece(s0.conn.bitfield@, j);
    lemma_says_piece(s1.conn.bitfield@, j);
    lemma_says_piece(s0.conn.bitfield@, piece as int);
}

proof fn lemma_seen_field(avail: Seq<u32>, known: Seq<u8>, told: Seq<u8>, n: int, j: int)
    requires
        0 <= n <= avail.len(),
        0 <= j < avail.len(),
    ensures
        seen_field(avail, known, told, n).len() == avail.len(),
        if j < n && says_piece(told, j) && !says_piece(known, j) {
            counted_once(avail[j], seen_field(avail, known, told, n)[j])
        } else {
            seen_field(avail, known, told, n)[j] == avail[j]
        },
    decreases n,
{
    if n > 0 {
        lemma_seen_field(avail, known, told, n - 1, j);
        lemma_says_piece(known, n - 1);
        lemma_says_piece(told, n - 1);
    }
}

/// A peer that tells all its pieces is known to have those and no others, and
/// each that it was not known to have is counted once more; a field of another
/// size than one bit for each piece, in whole bytes, changes nothing.
pub proof fn law_pieces_told(
    s0: PeerSession,
    t0: TorrentSession,
    bits: Seq<u8>,
    now: u64,
    s1: PeerSession,
    t1: TorrentSession,
    act: PeerAction,
    j: int,
)
    requires
        t0.wf(),
        answered(s0, t0, Message::Bitfield(bits), now, s1, t1, act),
        0 <= j < t0.piece_manager.num_pieces,
    ensures
        act is Nothing,
        t1.piece_manager.have@ == t0.piece_manager.have@,
        8 * bits.len() < t0.piece_manager.num_pieces || 8 * bits.len()
            >= t0.piece_manager.num_pieces + 8 ==> s1 == s0 && t1 == t0,
        t0.piece_manager.num_pieces <= 8 * bits.len() < t0.piece_manager.num_pieces + 8 ==> {
            &&& says_piece(s1.conn.bitfield@, j) == says_piece(bits, j)
            &&& if says_piece(bits, j) && !says_piece(s0.conn.bitfield@, j) {
                counted_once(
                    t0.piece_manager.piece_availability@[j],
                    t1.piece_manager.piece_availability@[j],
                )
            } else {
                t1.piece_manager.piece_availability@[j] == t0.piece_manager.piece_availability@[j]
            }
        },
{
    lemma_seen_field(
        t0.piece_manager.piece_availability@,
        s0.conn.bitfield@,
        bits,
        t0.piece_manager.num_pieces as int,
        j,
    );
}

/// What the peer says of itself is noted: whether it lets us download, and
/// whether it wants to. A choke leaves no request waiting.
pub proof fn law_states_told(
    s0: PeerSession,
    t0: TorrentSession,
    m: Message,
    now: u64,
    s1: PeerSession,
    t1: TorrentSession,
    act: PeerAction,
)
    requires
        answered(s0, t0, m, now, s1, t1, act),
    ensures
        m is Choke ==> s1.conn.peer_choking && s1.pending_requests == 0,
        m is Unchoke ==> !s1.conn.peer_choking && s1.pending_requests == s0.pending_requests,
        !(m is Choke || m is Unchoke) ==> s1.conn.peer_choking == s0.conn.peer_choking,
        m is Interested ==> s1.conn.peer_interested,
        m is NotInterested ==> !s1.conn.peer_interested,
        !(m is Interested || m is NotInterested) ==> s1.conn.peer_interested
            == s0.conn.peer_interested,
        m matches Message::Port(port) ==> act == if port > 0 {
            PeerAction::PingDht(port)
        } else {
            PeerAction::Nothing
        },
        s1.conn.am_choking == s0.conn.am_choking,
        s1.conn.addr == s0.conn.addr,
        t1.piece_manager.have@ == t0.piece_manager.have@,
{
}

/// The field that tells which pieces are at hand has a bit for each piece, in
/// whole bytes, and no other bit is set.
pub proof fn law_field_told(m: Message, pm: PieceManager, i: int)
    requires
        tells_pieces(m, pm),
        0 <= i,
    ensures
        m matches Message::Bitfield(b) && {
            &&& pm.num_pieces <= 8 * b.len() < pm.num_pieces + 8
            &&& says_piece(b, i) <==> i < pm.num_pieces && pm.have@[i]
        },
{
    match m {
        Message::Bitfield(b) => {
            lemma_says_piece(b, i);
            assert(has_bit(b, i) == (0 <= i < pm.num_pieces && pm.have@[i]));
        },
        _ => {},
    }
}

/// A peer that asks for a piece of the info dictionary is sent that piece, if
/// none was sent to it within a tenth of a second: with the data as it stands,
/// and the first one with the size of all of it.
pub proof fn law_metadata_served(
    s0: PeerSession,
    t0: TorrentSession,
    id: u8,
    payload: Seq<u8>,
    piece: usize,
    bytes: Vec<u8>,
    info: Seq<u8>,
    now: u64,
    s1: PeerSession,
    t1: TorrentSession,
    act: PeerAction,
)
    requires
        id != 0,
        answered(s0, t0, Message::Extended { id, payload }, now, s1, t1, act),
        s0.conn.peer_metadata_id == Some(id),
        s0.conn.peer_pex_id != Some(id),
        s0.conn.peer_pex_id is None ==> id != 1,
        metadata_message(payload).0 == 0,
        metadata_message(payload).1 == piece,
        t0.torrent_bytes == Some(bytes),
        info_raw(bytes@) == Ok::<Seq<u8>, Fault>(info),
        16384 * piece < info.len() <= i64::MAX,
        info.len() <= usize::MAX,
        s0.conn.metadata_last_response matches Some(t) ==> 10 * (now - t) > second(),
    ensures
        act matches PeerAction::Send(m) && m@ matches Message::Extended { id: to, payload: p } && {
            let (kind, index, total, data) = metadata_message(p);
            &&& to == id
            &&& kind == 1
            &&& index == piece
            &&& total == if piece == 0 {
                info.len() as int
            } else {
                0
            }
            &&& data.len() == if info.len() - 16384 * piece < 16384 {
                info.len() - 16384 * piece
            } else {
                16384
            }
            &&& forall|j: int| 0 <= j < data.len() ==> #[trigger] data[j] == info[16384 * piece + j]
        },
        s1.conn.metadata_last_response == Some(now),
{
    let chunk = metadata_chunk(info, piece as int);
    law_metadata_cut(info, piece as int, 0);
    assert(piece < metadata_pieces(info.len() as int));
    assert(piece <= i64::MAX);
    if piece == 0 {
        law_metadata_data(0, info.len() as usize, chunk);
    } else {
        law_metadata_header(1, piece, chunk);
    }
    assert forall|j: int| 0 <= j < chunk.len() implies #[trigger] chunk[j] == info[16384 * piece
        + j] by {
        law_metadata_cut(info, piece as int, j);
    }
}

/// A peer that offers metadata to a client without any is asked for the first
/// piece that is missing, unless a refusal of its own still holds.
pub proof fn law_metadata_asked(
    s0: PeerSession,
    t0: TorrentSession,
    payload: Seq<u8>,
    id: u8,
    state: MetadataState,
    i: int,
    now: u64,
    s1: PeerSession,
    t1: TorrentSession,
    act: PeerAction,
)
    requires
        answered(s0, t0, Message::Extended { id: 0, payload }, now, s1, t1, act),
        extension_ids(payload).1 == Some(id),
        t0.metadata_state == Some(state),
        0 <= i < state@.arrived.len() <= i64::MAX,
        i <= usize::MAX,
        state@.arrived[i] is None,
        forall|k: int| 0 <= k < i ==> (#[trigger] state@.arrived[k]) is Some,
        s0.conn.metadata_reject_until matches Some(t) ==> t <= now,
        t0.meta.pieces@.len() == 0,
    ensures
        s1.conn.peer_metadata_id == Some(id),
        act matches PeerAction::Send(m) && m@ matches Message::Extended { id: to, payload: p } && {
            &&& to == id
            &&& metadata_message(p).0 == 0
            &&& metadata_message(p).1 == i
        },
{
    law_first_missing(state@.arrived, 0);
    let p = request_payload(i);
    law_metadata_header(0, i as usize, seq![]);
    assert(p + Seq::<u8>::empty() =~= p);
}

} // verus!

//! What is exchanged with a peer besides blocks.

use crate::net::SocketAddrV4;
use crate::network::peer_messages::answered;
use crate::network::peer_session::{
    drained, elapsed, follows_round, kept_alive, metadata_step, others, with_told, without, MetadataOutcome, PeerAction, PeerSession,
    KEEPALIVE_AFTER, METADATA_BACKOFF, METADATA_GAP, PEX_DRAIN_AFTER, PEX_DRAIN_LIMIT,
    PEX_SEND_AFTER, PEX_SEND_LIMIT,
};
use crate::network::session::TorrentSession;
use crate::outside::sha1_of;
use crate::peer::message::{Message, PeerMessage};
use crate::peer::extension::metadata_message;
use crate::peer::metadata::{
    all_arrived, first_missing, joined_pieces, metadata_chunk, metadata_pieces, MetadataModel,
};
use vstd::prelude::*;

verus! {

/// The peers that a peer tells about come behind those that are known, each
/// once, but for the peer itself.
pub proof fn law_told_peers(
    known: Seq<SocketAddrV4>,
    told: Seq<SocketAddrV4>,
    me: SocketAddrV4,
    n: int,
)
    requires
        0 <= n <= told.len(),
    ensures
        known.is_prefix_of(with_told(known, told, me, n)),
        forall|i: int|
            0 <= i < n && #[trigger] told[i] != me ==> with_told(known, told, me, n).contains(
                told[i],
            ),
        forall|k: int|
            known.len() <= k < with_told(known, told, me, n).len() ==> {
                let a = #[trigger] with_told(known, told, me, n)[k];
                a != me && told.contains(a) && !with_told(known, told, me, n).take(k).contains(a)
            },
    decreases n,
{
    let all = with_told(known, told, me, n);
    if n > 0 {
        law_told_peers(known, told, me, n - 1);
        let before = with_told(known, told, me, n - 1);
        assert(known.len() <= before.len());
        assert(all.take(known.len() as int) =~= before.take(known.len() as int));
        assert(known =~= before.take(known.len() as int));
        assert forall|i: int| 0 <= i < n && #[trigger] told[i] != me implies all.contains(
            told[i],
        ) by {
            if before.contains(told[i]) {
                let k = before.index_of(told[i]);
                assert(all[k] == told[i]);
            } else {
                assert(i == n - 1);
                assert(all[before.len() as int] == told[i]);
            }
        }
        assert forall|k: int| known.len() <= k < all.len() implies ({
            let a = #[trigger] all[k];
            a != me && told.contains(a) && !all.take(k).contains(a)
        }) by {
            if k < before.len() {
                assert(all[k] == before[k]);
                assert(all.take(k) =~= before.take(k));
            } else {
                assert(all[k] == told[n - 1]);
                assert(all.take(k) =~= before);
            }
        }
    } else {
        assert(known.take(known.len() as int) =~= known);
    }
}

/// The peers that are passed on or called are known, are not the peer itself
/// and are not among those passed over; not more than the limit; and if fewer,
/// then all such peers.
pub proof fn law_chosen_peers(
    known: Seq<SocketAddrV4>,
    me: SocketAddrV4,
    passed: Seq<SocketAddrV4>,
    n: int,
    limit: int,
)
    requires
        0 <= n <= known.len(),
        0 <= limit,
    ensures
        others(known, me, passed, n, limit).len() <= limit,
        others(known, me, passed, n, limit).len() <= n,
        forall|k: int|
            0 <= k < others(known, me, passed, n, limit).len() ==> {
                let a = #[trigger] others(known, me, passed, n, limit)[k];
                a != me && !passed.contains(a) && known.contains(a)
            },
        others(known, me, passed, n, limit).len() < limit ==> forall|i: int|
            0 <= i < n && #[trigger] known[i] != me && !passed.contains(known[i]) ==> others(
                known,
                me,
                passed,
                n,
                limit,
            ).contains(known[i]),
    decreases n,
{
    if n > 0 {
        law_chosen_peers(known, me, passed, n - 1, limit);
        let before = others(known, me, passed, n - 1, limit);
        let all = others(known, me, passed, n, limit);
        assert forall|k: int| 0 <= k < all.len() implies ({
            let a = #[trigger] all[k];
            a != me && !passed.contains(a) && known.contains(a)
        }) by {
            if k < before.len() {
                assert(all[k] == before[k]);
            } else {
                assert(all[k] == known[n - 1]);
            }
        }
        if all.len() < limit {
            assert forall|i: int|
                0 <= i < n && #[trigger] known[i] != me && !passed.contains(
                    known[i],
                ) implies all.contains(known[i]) by {
                if i < n - 1 {
                    assert(before.contains(known[i]));
                    let k = before.index_of(known[i]);
                    assert(all[k] == known[i]);
                } else {
                    assert(all[before.len() as int] == known[i]);
                }
            }
        }
    }
}

/// What is struck off a list is no longer in it, and nothing else is lost.
pub proof fn law_struck_off<T>(s: Seq<T>, x: T, y: T)
    ensures
        without(s, x).contains(y) <==> y != x && s.contains(y),
        !s.contains(x) ==> without(s, x) == s,
    decreases s.len(),
{
    if s.len() > 0 {
        let front = s.drop_last();
        law_struck_off(front, x, y);
        let w = without(front, x);
        if without(s, x).contains(y) {
            let k = without(s, x).index_of(y);
            if s.last() != x && k == w.len() {
                assert(s[s.len() - 1] == y);
            } else {
                assert(w[k] == y);
                assert(w.contains(y));
                let j = front.index_of(y);
                assert(s[j] == y);
            }
        }
        if y != x && s.contains(y) {
            let j = s.index_of(y);
            if j < front.len() {
                assert(front[j] == y);
                assert(w.contains(y));
                let k = w.index_of(y);
                assert(without(s, x)[k] == y);
            } else {
                assert(without(s, x)[w.len() as int] == y);
            }
        }
        if !s.contains(x) {
            assert(s[s.len() - 1] != x);
            if front.contains(x) {
                let j = front.index_of(x);
                assert(s[j] == x);
            }
            assert(front.push(s.last()) =~= s);
        }
    }
}

/// A block is counted for the torrent and for the peer that sent it, by its
/// length, and for no other peer; one request less is open. It is collected if
/// it belongs to the piece that is asked of the peer.
pub proof fn law_block_counted(
    s0: PeerSession,
    t0: TorrentSession,
    index: u32,
    begin: u32,
    data: Seq<u8>,
    now: u64,
    s1: PeerSession,
    t1: TorrentSession,
    act: PeerAction,
    a: SocketAddrV4,
)
    requires
        answered(s0, t0, Message::Piece { index, begin, data }, now, s1, t1, act),
        t0.total_downloaded + data.len() <= u64::MAX,
        t0.peer_choke_stats@.contains_key(a) ==> t0.peer_choke_stats@[a].downloaded + data.len()
            <= u64::MAX,
    ensures
        t1.total_downloaded == t0.total_downloaded + data.len(),
        t1.total_uploaded == t0.total_uploaded,
        t1.peer_choke_stats@.contains_key(a) == t0.peer_choke_stats@.contains_key(a),
        t0.peer_choke_stats@.contains_key(a) ==> {
            let x = t0.peer_choke_stats@[a];
            let y = t1.peer_choke_stats@[a];
            &&& y.downloaded == if a == s0.conn.addr {
                x.downloaded + data.len()
            } else {
                x.downloaded as int
            }
            &&& y.am_choking == x.am_choking
            &&& y.peer_interested == x.peer_interested
        },
        s0.pending_requests > 0 ==> s1.pending_requests == s0.pending_requests - 1,
        !s1.issued_by_us@.contains(begin),
        s0.current_piece_index == Some(index) ==> (act matches PeerAction::Collect {
            begin: b,
            data: d,
        } && b == begin && d@ == data),
        s0.current_piece_index != Some(index) ==> act is Nothing,
{
    law_struck_off(s0.issued_by_us@, begin, begin);
    assert(data.len() <= u64::MAX);
}

/// A peer's interest is noted where the rounds of choking look for it, and that
/// of no other peer changes.
pub proof fn law_interest_noted(
    s0: PeerSession,
    t0: TorrentSession,
    m: Message,
    now: u64,
    s1: PeerSession,
    t1: TorrentSession,
    act: PeerAction,
    a: SocketAddrV4,
)
    requires
        m is Interested || m is NotInterested,
        answered(s0, t0, m, now, s1, t1, act),
    ensures
        t1.peer_choke_stats@.contains_key(a) == t0.peer_choke_stats@.contains_key(a),
        t0.peer_choke_stats@.contains_key(a) ==> {
            let x = t0.peer_choke_stats@[a];
            let y = t1.peer_choke_stats@[a];
            &&& y.peer_interested == if a == s0.conn.addr {
                m is Interested
            } else {
                x.peer_interested
            }
            &&& y.am_choking == x.am_choking
            &&& y.downloaded == x.downloaded
        },
{
}

/// An info dictionary is cut into pieces of sixteen kibibytes, the last of
/// which is as long as what is left.
pub proof fn law_metadata_cut(info: Seq<u8>, i: int, j: int)
    requires
        0 <= i,
        16384 * i < info.len(),
    ensures
        16384 * (metadata_pieces(info.len() as int) - 1) < info.len(),
        info.len() <= 16384 * metadata_pieces(info.len() as int),
        metadata_chunk(info, i).len() == if info.len() - 16384 * i < 16384 {
            info.len() - 16384 * i
        } else {
            16384
        },
        0 <= j < metadata_chunk(info, i).len() ==> metadata_chunk(info, i)[j] == info[16384 * i
            + j],
{
}

/// The metadata that is taken over has the digest that names the torrent, and
/// is what the pieces give one after the other.
pub proof fn law_metadata_genuine(
    m: MetadataModel,
    identity: Seq<u8>,
    piece: int,
    total: int,
    data: Seq<u8>,
)
    requires
        0 <= piece,
    ensures
        metadata_step(Some(m), identity, piece, total, data).1 matches MetadataOutcome::Complete(
            info,
        ) ==> sha1_of(info) == m.info_hash,
        metadata_step(Some(m), identity, piece, total, data).1 matches MetadataOutcome::Next(k)
            ==> k == piece + 1,
        metadata_step(None, identity, piece, total, data).1 is Nothing,
{
}

/// The last missing piece completes the metadata: with all others arrived, and
/// the digest right, it is taken over.
pub proof fn law_metadata_completed(
    m: MetadataModel,
    identity: Seq<u8>,
    piece: int,
    data: Seq<u8>,
    info: Seq<u8>,
)
    requires
        0 < piece < m.arrived.len(),
        forall|i: int| 0 <= i < m.arrived.len() && i != piece ==> (#[trigger] m.arrived[i]) is Some,
        joined_pieces(m.arrived.update(piece, Some(data))) == info,
        info.len() == m.total_size,
        sha1_of(info) == m.info_hash,
    ensures
        metadata_step(Some(m), identity, piece, 0, data) == (
            None::<MetadataModel>,
            MetadataOutcome::Complete(info),
        ),
{
    let stored = m.stored(piece, data);
    assert forall|i: int| 0 <= i < stored.arrived.len() implies (
    #[trigger] stored.arrived[i]) is Some by {
        if i != piece {
            assert(m.arrived[i] is Some);
        }
    }
    assert(stored.assembled() =~= info);
}

/// The piece of metadata that is asked for is the first that has not arrived.
pub proof fn law_first_missing(p: Seq<Option<Seq<u8>>>, from: int)
    requires
        0 <= from <= p.len(),
    ensures
        match first_missing(p, from) {
            Some(i) => from <= i < p.len() && p[i] is None && forall|k: int|
                from <= k < i ==> (#[trigger] p[k]) is Some,
            None => forall|k: int| from <= k < p.len() ==> (#[trigger] p[k]) is Some,
        },
    decreases p.len() - from,
{
    if from < p.len() && p[from] is Some {
        law_first_missing(p, from + 1);
    }
}

/// As many blocks are asked for as the piece has left and the peer may be asked
/// at once, whichever is less.
pub proof fn law_room(s: PeerSession)
    ensures
        s.total_sent <= s.blocks_in_piece && s.pending_requests <= s.max_pipeline ==> {
            &&& s.room() + s.total_sent <= s.blocks_in_piece
            &&& s.room() + s.pending_requests <= s.max_pipeline
            &&& s.room() + s.total_sent == s.blocks_in_piece || s.room() + s.pending_requests
                == s.max_pipeline
        },
        s.total_sent >= s.blocks_in_piece || s.pending_requests >= s.max_pipeline ==> s.room() == 0,
{
}

/// A second, in the unit of all times.
pub open spec fn second() -> int {
    1_000_000_000
}

/// How long things take: a quiet connection is kept alive after two minutes;
/// peers are passed on every ten seconds, fifty at once, and called every
/// fifteen, twenty at once; metadata is sent ten times a second and is not
/// asked for within a minute of a refusal.
pub proof fn law_times(now: u64, t: u64)
    requires
        t <= now,
    ensures
        elapsed(now, t) > KEEPALIVE_AFTER <==> now > t + 120 * second(),
        elapsed(now, t) > PEX_SEND_AFTER <==> now > t + 10 * second(),
        elapsed(now, t) > PEX_DRAIN_AFTER <==> now > t + 15 * second(),
        10 * (now - t) > second() <==> elapsed(now, t) > METADATA_GAP,
        METADATA_BACKOFF == 60 * second(),
        PEX_SEND_LIMIT == 50,
        PEX_DRAIN_LIMIT == 20,
{
}

/// The first piece of metadata tells the size of all of it, and the next piece
/// that is asked for is one of those that make up that size.
pub proof fn law_metadata_sized(
    m: MetadataModel,
    identity: Seq<u8>,
    total: int,
    data: Seq<u8>,
    piece: int,
)
    requires
        0 <= piece,
        0 < total,
    ensures
        total > 16384 ==> (metadata_step(Some(m), identity, 0, total, data) matches (
            Some(after),
            MetadataOutcome::Next(k),
        ) && k == 1 && after.total_size == total && 16384 * (after.num_pieces - 1) < total <= 16384
            * after.num_pieces && after.arrived.len() == after.num_pieces && after.arrived[0]
            == Some(data)),
        metadata_step(Some(m), identity, piece, 0, data) matches (
            Some(after),
            MetadataOutcome::Next(k),
        ) ==> k < after.num_pieces,
{
    let sized = m.resized(total);
    let stored = sized.stored(0, data);
    assert(sized.arrived.len() == metadata_pieces(total));
    if total > 16384 {
        assert(metadata_pieces(total) >= 2);
        assert(stored.arrived[1] is None);
        assert(!all_arrived(stored.arrived));
    }
}

/// A peer that refuses a piece of metadata is not asked for any within a
/// minute, and the piece is no longer awaited from it. What it sends without
/// having been asked for it changes nothing.
pub proof fn law_metadata_refused(
    s0: PeerSession,
    t0: TorrentSession,
    id: u8,
    payload: Seq<u8>,
    now: u64,
    s1: PeerSession,
    t1: TorrentSession,
    act: PeerAction,
)
    requires
        id != 0,
        answered(s0, t0, Message::Extended { id, payload }, now, s1, t1, act),
        s0.conn.peer_metadata_id == Some(id),
        s0.conn.peer_pex_id != Some(id),
        s0.conn.peer_pex_id is None ==> id != 1,
        now + 60 * second() <= u64::MAX,
    ensures
        metadata_message(payload).0 == 2 ==> {
            &&& act is Nothing
            &&& t1 == t0
            &&& s1.conn.metadata_reject_until is Some
            &&& s1.conn.metadata_reject_until->0 == now + 60 * second()
            &&& !s1.conn.metadata_sent_requests@.contains(metadata_message(payload).1)
        },
        metadata_message(payload).0 == 1 && !s0.conn.metadata_sent_requests@.contains(
            metadata_message(payload).1,
        ) ==> act is Nothing && s1 == s0 && t1 == t0,
        metadata_message(payload).0 > 2 ==> act is Nothing && s1 == s0 && t1 == t0,
{
    let piece = metadata_message(payload).1;
    law_struck_off(s0.conn.metadata_sent_requests@, piece, piece);
}

/// After a step a session chokes its peer exactly as the last round decided, or
/// if the round does not list it. The peer is told of each change and of
/// nothing else, so that a second step tells it nothing.
pub proof fn law_round_followed(
    s0: PeerSession,
    t: TorrentSession,
    s1: PeerSession,
    r: Option<PeerMessage>,
    s2: PeerSession,
    again: Option<PeerMessage>,
)
    requires
        follows_round(s0, t, s1, r),
        follows_round(s1, t, s2, again),
    ensures
        t.peer_choke_stats@.contains_key(s0.conn.addr) ==> s1.conn.am_choking
            == t.peer_choke_stats@[s0.conn.addr].am_choking,
        !t.peer_choke_stats@.contains_key(s0.conn.addr) ==> s1.conn.am_choking,
        s0.conn.am_choking == s1.conn.am_choking ==> r is None,
        s0.conn.am_choking && !s1.conn.am_choking ==> (r matches Some(m) && m@ == Message::Unchoke),
        !s0.conn.am_choking && s1.conn.am_choking ==> (r matches Some(m) && m@ == Message::Choke),
        again is None,
        s2 == s1,
{
}

/// A connection is kept alive when it was quiet for more than two minutes, and
/// then not again for as long.
pub proof fn law_kept_alive(
    s0: PeerSession,
    now: u64,
    s1: PeerSession,
    r: Option<PeerMessage>,
    later: u64,
    s2: PeerSession,
    again: Option<PeerMessage>,
)
    requires
        s0.keepalive_timer <= now <= later,
        kept_alive(s0, now, s1, r),
        kept_alive(s1, later, s2, again),
    ensures
        r is Some <==> now - s0.keepalive_timer > 120 * second(),
        r matches Some(m) ==> m@ == Message::KeepAlive,
        r is Some && later - now <= 120 * second() ==> again is None,
        r is Some && later - now > 120 * second() ==> again is Some,
{
}

/// No peer is called twice, nor is the peer itself that told of it; and those
/// that are called were told of.
pub proof fn law_called_once(
    s0: PeerSession,
    on: bool,
    now: u64,
    s1: PeerSession,
    first: Seq<SocketAddrV4>,
    again: bool,
    later: u64,
    s2: PeerSession,
    second_time: Seq<SocketAddrV4>,
    i: int,
    a: SocketAddrV4,
)
    requires
        drained(s0, on, now, s1, first),
        drained(s1, again, later, s2, second_time),
        0 <= i < second_time.len(),
        a == second_time[i],
    ensures
        !first.contains(a),
        !s0.already_dialed@.contains(a),
        a != s0.conn.addr,
        s0.known_peers@.contains(a),
        second_time.len() <= 20,
{
    law_chosen_peers(
        s1.known_peers@,
        s1.conn.addr,
        s1.already_dialed@,
        s1.known_peers@.len() as int,
        20,
    );
    let all = s1.already_dialed@;
    if first.contains(a) && s1 != s0 {
        let k = first.index_of(a);
        assert(all[s0.already_dialed@.len() + k] == a);
    }
    if s0.already_dialed@.contains(a) {
        let k = s0.already_dialed@.index_of(a);
        assert(all[k] == a);
    }
}

} // verus!

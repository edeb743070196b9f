//! How what is sent lies in its bytes.

use crate::bytes::{be_bytes, be_value, byte_range, lemma_be_round_trip, lemma_be_value_bytes, lemma_byte_ranges};
use crate::laws::{lemma_number, number, writes_v4};
use crate::net::compact_v4;
use crate::peer::connection::{handshake, MAX_MESSAGE};
use crate::peer::message::{body, read_body, three_words, wire, Message, WireFault};
use crate::tracker::http::{all_peers_in, AnswerModel};
use crate::tracker::udp::{announce_bytes, connect_bytes, connection_of, endpoint_of, udp_answer_of, UdpFault};
use crate::tracker::Announce;
use vstd::prelude::*;

verus! {

/// Bytes that hold a number hold that number.
pub proof fn lemma_holds(data: Seq<u8>, at: int, v: nat, n: nat)
    requires
        0 <= at,
        at + n <= data.len(),
        data.subrange(at, at + n) == be_bytes(v, n),
        v < byte_range(n),
    ensures
        number(data, at, n as int) == v,
{
    lemma_number(data, at, n as int);
    lemma_be_round_trip(v, n);
}

/// The number in a few bytes fits.
pub proof fn lemma_number_small(data: Seq<u8>, at: int, n: int)
    requires
        0 <= at,
        0 <= n,
        at + n <= data.len(),
    ensures
        0 <= number(data, at, n) < byte_range(n as nat),
        number(data, at, n) == be_value(data.subrange(at, at + n)),
{
    lemma_number(data, at, n);
    lemma_be_value_bytes(data.subrange(at, at + n));
}

pub proof fn lemma_compact_writes(data: Seq<u8>, at: int)
    requires
        0 <= at,
        at + 6 <= data.len(),
    ensures
        writes_v4(data, at, compact_v4(data.subrange(at, at + 6))),
{
    let s = data.subrange(at, at + 6);
    lemma_byte_ranges();
    lemma_number_small(data, at, 4);
    lemma_number_small(data, at + 4, 2);
    assert(s.subrange(0, 4) =~= data.subrange(at, at + 4));
    assert(s.subrange(4, 6) =~= data.subrange(at + 4, at + 6));
}

/// The body of a message says the message: its number in the first byte, then
/// its fields.
pub open spec fn says(b: Seq<u8>, m: Message) -> bool {
    match m {
        Message::KeepAlive => b.len() == 0,
        Message::Choke => b.len() == 1 && b[0] == 0,
        Message::Unchoke => b.len() == 1 && b[0] == 1,
        Message::Interested => b.len() == 1 && b[0] == 2,
        Message::NotInterested => b.len() == 1 && b[0] == 3,
        Message::Have(p) => b.len() == 5 && b[0] == 4 && number(b, 1, 4) == p,
        Message::Bitfield(x) => b.len() == 1 + x.len() && b[0] == 5 && b.skip(1) == x,
        Message::Request { index, begin, length } => b.len() == 13 && b[0] == 6 && number(b, 1, 4)
            == index && number(b, 5, 4) == begin && number(b, 9, 4) == length,
        Message::Piece { index, begin, data } => b.len() == 9 + data.len() && b[0] == 7 && number(
            b,
            1,
            4,
        ) == index && number(b, 5, 4) == begin && b.skip(9) == data,
        Message::Cancel { index, begin, length } => b.len() == 13 && b[0] == 8 && number(b, 1, 4)
            == index && number(b, 5, 4) == begin && number(b, 9, 4) == length,
        Message::Port(p) => b.len() == 3 && b[0] == 9 && number(b, 1, 2) == p,
        Message::Extended { id, payload } => b.len() == 2 + payload.len() && b[0] == 20 && b[1]
            == id && b.skip(2) == payload,
    }
}

proof fn lemma_body_says(m: Message)
    ensures
        says(body(m), m),
{
    let b = body(m);
    lemma_byte_ranges();
    match m {
        Message::Have(p) => {
            lemma_be_round_trip(p as nat, 4);
            assert(b.subrange(1, 5) =~= be_bytes(p as nat, 4));
            lemma_holds(b, 1, p as nat, 4);
        },
        Message::Bitfield(x) => {
            assert(b.skip(1) =~= x);
        },
        Message::Request { index, begin, length } => {
            lemma_three(b, 6, index, begin, length);
        },
        Message::Cancel { index, begin, length } => {
            lemma_three(b, 8, index, begin, length);
        },
        Message::Piece { index, begin, data } => {
            lemma_be_round_trip(index as nat, 4);
            lemma_be_round_trip(begin as nat, 4);
            assert(b.subrange(1, 5) =~= be_bytes(index as nat, 4));
            assert(b.subrange(5, 9) =~= be_bytes(begin as nat, 4));
            lemma_holds(b, 1, index as nat, 4);
            lemma_holds(b, 5, begin as nat, 4);
            assert(b.skip(9) =~= data);
        },
        Message::Port(p) => {
            lemma_be_round_trip(p as nat, 2);
            assert(b.subrange(1, 3) =~= be_bytes(p as nat, 2));
            lemma_holds(b, 1, p as nat, 2);
        },
        Message::Extended { id, payload } => {
            assert(b.skip(2) =~= payload);
        },
        _ => {},
    }
}

proof fn lemma_three(b: Seq<u8>, id: u8, x: u32, y: u32, z: u32)
    requires
        b == seq![id] + three_words(x, y, z),
    ensures
        b.len() == 13,
        b[0] == id,
        number(b, 1, 4) == x,
        number(b, 5, 4) == y,
        number(b, 9, 4) == z,
{
    lemma_byte_ranges();
    lemma_be_round_trip(x as nat, 4);
    lemma_be_round_trip(y as nat, 4);
    lemma_be_round_trip(z as nat, 4);
    assert(b.subrange(1, 5) =~= be_bytes(x as nat, 4));
    assert(b.subrange(5, 9) =~= be_bytes(y as nat, 4));
    assert(b.subrange(9, 13) =~= be_bytes(z as nat, 4));
    lemma_holds(b, 1, x as nat, 4);
    lemma_holds(b, 5, y as nat, 4);
    lemma_holds(b, 9, z as nat, 4);
}

/// A message on the wire is the length of its body in four bytes, the highest
/// first, and the body: the message's number and its fields.
pub proof fn law_message_laid_out(m: Message)
    requires
        body(m).len() <= u32::MAX,
    ensures
        wire(m).len() >= 4,
        number(wire(m), 0, 4) == wire(m).len() - 4,
        says(wire(m).skip(4), m),
{
    let w = wire(m);
    let b = body(m);
    lemma_byte_ranges();
    lemma_be_round_trip(b.len(), 4);
    assert(w.subrange(0, 4) =~= be_bytes(b.len(), 4));
    lemma_holds(w, 0, b.len(), 4);
    assert(w.skip(4) =~= b);
    lemma_body_says(m);
}

/// A body that says a message is read as that message.
pub proof fn law_message_read(b: Seq<u8>, m: Message)
    requires
        says(b, m),
    ensures
        read_body(b) == Ok::<Message, WireFault>(m),
{
    lemma_byte_ranges();
    if b.len() >= 5 {
        lemma_number_small(b, 1, 4);
    }
    if b.len() >= 9 {
        lemma_number_small(b, 5, 4);
    }
    if b.len() >= 13 {
        lemma_number_small(b, 9, 4);
    }
    if b.len() >= 3 {
        lemma_number_small(b, 1, 2);
    }
}

/// A body whose number is unknown, or that ends before the last of its fields,
/// is refused.
pub proof fn law_message_refused(b: Seq<u8>)
    requires
        b.len() > 0,
        ({
            ||| 10 <= b[0] <= 19
            ||| b[0] > 20
            ||| b[0] == 4 && b.len() < 5
            ||| (b[0] == 6 || b[0] == 8) && b.len() < 13
            ||| b[0] == 7 && b.len() < 9
            ||| b[0] == 9 && b.len() < 3
        }),
    ensures
        read_body(b) is Err,
{
}

/// The handshake offers extension messages, and the side that calls offers the
/// DHT; no other bit is set. A message may be as long as four mebibytes.
pub proof fn law_extensions_offered(info_hash: Seq<u8>, peer_id: Seq<u8>, calling: bool, i: int)
    requires
        info_hash.len() == 20,
        peer_id.len() == 20,
        0 <= i < 8,
    ensures
        handshake(info_hash, peer_id, calling)[20 + i] == if i == 5 {
            20int
        } else if i == 7 && calling {
            1
        } else {
            0
        },
        MAX_MESSAGE == 4 * 1024 * 1024,
{
}

/// The request that opens a connection: the protocol's number, the action and
/// the transaction.
pub proof fn law_connect_laid_out(transaction: u32)
    ensures
        connect_bytes(transaction).len() == 16,
        number(connect_bytes(transaction), 0, 8) == 0x417_2710_1980,
        number(connect_bytes(transaction), 8, 4) == 0,
        number(connect_bytes(transaction), 12, 4) == transaction,
{
    let b = connect_bytes(transaction);
    lemma_byte_ranges();
    lemma_be_round_trip(0x417_2710_1980, 8);
    lemma_be_round_trip(0, 4);
    lemma_be_round_trip(transaction as nat, 4);
    assert(b.subrange(0, 8) =~= be_bytes(0x417_2710_1980, 8));
    assert(b.subrange(8, 12) =~= be_bytes(0, 4));
    assert(b.subrange(12, 16) =~= be_bytes(transaction as nat, 4));
    lemma_holds(b, 0, 0x417_2710_1980, 8);
    lemma_holds(b, 8, 0, 4);
    lemma_holds(b, 12, transaction as nat, 4);
}

/// The answer that opens a connection has its number behind the action and the
/// transaction, which are those of the request; any other is refused.
pub proof fn law_connection_read(buf: Seq<u8>, transaction: u32)
    ensures
        connection_of(buf, transaction) is Ok <==> buf.len() >= 16 && number(buf, 0, 4) == 0
            && number(buf, 4, 4) == transaction,
        connection_of(buf, transaction) matches Ok(c) ==> c == number(buf, 8, 8),
{
    lemma_byte_ranges();
    if buf.len() >= 8 {
        lemma_number_small(buf, 0, 4);
        lemma_number_small(buf, 4, 4);
    }
    if buf.len() >= 16 {
        lemma_number_small(buf, 8, 8);
    }
}

/// An announcement: ninety-eight bytes with the connection, the action, the
/// transaction, the torrent, the client, what was downloaded, what is left and
/// what was uploaded, the event, no address, a mark, how many peers are wanted
/// and the port.
pub proof fn law_announcement_laid_out(a: Announce, connection: u64, transaction: u32, key: u32)
    ensures
        ({
            let b = announce_bytes(a, connection, transaction, key);
            &&& b.len() == 98
            &&& number(b, 0, 8) == connection
            &&& number(b, 8, 4) == 1
            &&& number(b, 12, 4) == transaction
            &&& b.subrange(16, 36) == a.info_hash@
            &&& b.subrange(36, 56) == a.peer_id.0@
            &&& number(b, 56, 8) == a.downloaded
            &&& number(b, 64, 8) == a.left
            &&& number(b, 72, 8) == a.uploaded
            &&& number(b, 80, 4) == match a.event {
                None => 0int,
                Some(t) => if t@ == "started"@ {
                    2
                } else if t@ == "stopped"@ {
                    3
                } else if t@ == "completed"@ {
                    1
                } else {
                    0
                },
            }
            &&& number(b, 84, 4) == 0
            &&& number(b, 88, 4) == key
            &&& number(b, 92, 4) == 100
            &&& number(b, 96, 2) == a.port
        }),
{
    reveal_strlit("completed");
    reveal_strlit("started");
    reveal_strlit("stopped");
    assert("started"@.len() == 7 && "stopped"@.len() == 7 && "completed"@.len() == 9);
    assert("started"@[2] != "stopped"@[2]);
    let b = announce_bytes(a, connection, transaction, key);
    let event = crate::tracker::udp::event_number(a.event);
    lemma_byte_ranges();
    lemma_be_round_trip(connection as nat, 8);
    lemma_be_round_trip(1, 4);
    lemma_be_round_trip(transaction as nat, 4);
    lemma_be_round_trip(a.downloaded as nat, 8);
    lemma_be_round_trip(a.left as nat, 8);
    lemma_be_round_trip(a.uploaded as nat, 8);
    lemma_be_round_trip(event, 4);
    lemma_be_round_trip(0, 4);
    lemma_be_round_trip(key as nat, 4);
    lemma_be_round_trip(100, 4);
    lemma_be_round_trip(a.port as nat, 2);
    assert(b.subrange(0, 8) =~= be_bytes(connection as nat, 8));
    assert(b.subrange(8, 12) =~= be_bytes(1, 4));
    assert(b.subrange(12, 16) =~= be_bytes(transaction as nat, 4));
    assert(b.subrange(16, 36) =~= a.info_hash@);
    assert(b.subrange(36, 56) =~= a.peer_id.0@);
    assert(b.subrange(56, 64) =~= be_bytes(a.downloaded as nat, 8));
    assert(b.subrange(64, 72) =~= be_bytes(a.left as nat, 8));
    assert(b.subrange(72, 80) =~= be_bytes(a.uploaded as nat, 8));
    assert(b.subrange(80, 84) =~= be_bytes(event, 4));
    assert(b.subrange(84, 88) =~= be_bytes(0, 4));
    assert(b.subrange(88, 92) =~= be_bytes(key as nat, 4));
    assert(b.subrange(92, 96) =~= be_bytes(100, 4));
    assert(b.subrange(96, 98) =~= be_bytes(a.port as nat, 2));
    lemma_holds(b, 0, connection as nat, 8);
    lemma_holds(b, 8, 1, 4);
    lemma_holds(b, 12, transaction as nat, 4);
    lemma_holds(b, 56, a.downloaded as nat, 8);
    lemma_holds(b, 64, a.left as nat, 8);
    lemma_holds(b, 72, a.uploaded as nat, 8);
    lemma_holds(b, 80, event, 4);
    lemma_holds(b, 84, 0, 4);
    lemma_holds(b, 88, key as nat, 4);
    lemma_holds(b, 92, 100, 4);
    lemma_holds(b, 96, a.port as nat, 2);
}

/// The peers that bytes list, six bytes each.
pub open spec fn lists_peers(data: Seq<u8>, at: int, n: int, peers: Seq<crate::net::SocketAddrV4>) -> bool {
    &&& peers.len() == n
    &&& forall|i: int| 0 <= i < n ==> writes_v4(data, at + 6 * i, #[trigger] peers[i])
}

pub proof fn lemma_lists_peers(data: Seq<u8>, n: int)
    requires
        0 <= n,
        6 * n <= data.len(),
    ensures
        lists_peers(data, 0, n, all_peers_in(data, n)),
    decreases n,
{
    if n > 0 {
        lemma_lists_peers(data, n - 1);
        lemma_compact_writes(data, 6 * (n - 1));
        let before = all_peers_in(data, n - 1);
        let all = all_peers_in(data, n);
        assert forall|i: int| 0 <= i < n implies writes_v4(data, 0 + 6 * i, #[trigger] all[i]) by {
            if i < n - 1 {
                assert(all[i] == before[i]);
            }
        }
    }
}

/// The answer to an announcement: behind the action and the transaction, which
/// are those of the request, stand the interval, how many download, how many
/// have it all, and the peers, six bytes each. Any other answer is refused.
pub proof fn law_udp_answer(buf: Seq<u8>, transaction: u32)
    ensures
        udp_answer_of(buf, transaction) is Ok <==> buf.len() >= 20 && number(buf, 0, 4) == 1
            && number(buf, 4, 4) == transaction && (buf.len() - 20) % 6 == 0,
        udp_answer_of(buf, transaction) matches Ok(m) ==> {
            &&& m.interval == number(buf, 8, 4)
            &&& m.min_interval is None
            &&& m.leechers is Some && m.leechers->0 == number(buf, 12, 4)
            &&& m.seeders is Some && m.seeders->0 == number(buf, 16, 4)
            &&& m.warning is None
            &&& lists_peers(buf, 20, (buf.len() - 20) / 6, m.peers)
        },
{
    lemma_byte_ranges();
    if buf.len() >= 8 {
        lemma_number_small(buf, 0, 4);
        lemma_number_small(buf, 4, 4);
    }
    if buf.len() >= 20 {
        lemma_number_small(buf, 8, 4);
        lemma_number_small(buf, 12, 4);
        lemma_number_small(buf, 16, 4);
        let rest = buf.skip(20);
        let n = (buf.len() - 20) / 6;
        lemma_lists_peers(rest, n);
        let peers = all_peers_in(rest, n);
        assert forall|i: int| 0 <= i < n implies writes_v4(buf, 20 + 6 * i, #[trigger] peers[i]) by {
            assert(writes_v4(rest, 0 + 6 * i, peers[i]));
            lemma_number(rest, 6 * i, 4);
            lemma_number(buf, 20 + 6 * i, 4);
            lemma_number(rest, 6 * i + 4, 2);
            lemma_number(buf, 20 + 6 * i + 4, 2);
            assert(rest.subrange(6 * i, 6 * i + 4) =~= buf.subrange(20 + 6 * i, 20 + 6 * i + 4));
            assert(rest.subrange(6 * i + 4, 6 * i + 6) =~= buf.subrange(
                20 + 6 * i + 4,
                20 + 6 * i + 6,
            ));
        }
    }
}

} // verus!

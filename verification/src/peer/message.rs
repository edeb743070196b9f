//! The messages that peers exchange, and their form on the wire.

use crate::bytes::{be_bytes, be_value, copy_range};
use crate::bytes::{lemma_be_bytes_len, lemma_be_round_trip, lemma_byte_ranges};
use crate::error::TorrentError;
use crate::outside::{read_u16, read_u32, write_u16, write_u32};
use crate::text::{decimal, decimal_string, joined};
use vstd::prelude::*;
use vstd::string::*;

verus! {

/// A message of the peer wire protocol.
#[derive(Debug)]
pub enum PeerMessage {
    KeepAlive,
    Choke,
    Unchoke,
    Interested,
    NotInterested,
    Have(u32),
    Bitfield(Vec<u8>),
    Request { index: u32, begin: u32, length: u32 },
    Piece { index: u32, begin: u32, data: Vec<u8> },
    Cancel { index: u32, begin: u32, length: u32 },
    Port(u16),
    Extended { id: u8, payload: Vec<u8> },
}

/// The model of a message.
pub enum Message {
    KeepAlive,
    Choke,
    Unchoke,
    Interested,
    NotInterested,
    Have(u32),
    Bitfield(Seq<u8>),
    Request { index: u32, begin: u32, length: u32 },
    Piece { index: u32, begin: u32, data: Seq<u8> },
    Cancel { index: u32, begin: u32, length: u32 },
    Port(u16),
    Extended { id: u8, payload: Seq<u8> },
}

impl View for PeerMessage {
    type V = Message;

    open spec fn view(&self) -> Message {
        match self {
            PeerMessage::KeepAlive => Message::KeepAlive,
            PeerMessage::Choke => Message::Choke,
            PeerMessage::Unchoke => Message::Unchoke,
            PeerMessage::Interested => Message::Interested,
            PeerMessage::NotInterested => Message::NotInterested,
            PeerMessage::Have(p) => Message::Have(*p),
            PeerMessage::Bitfield(b) => Message::Bitfield(b@),
            PeerMessage::Request { index, begin, length } => Message::Request {
                index: *index,
                begin: *begin,
                length: *length,
            },
            PeerMessage::Piece { index, begin, data } => Message::Piece {
                index: *index,
                begin: *begin,
                data: data@,
            },
            PeerMessage::Cancel { index, begin, length } => Message::Cancel {
                index: *index,
                begin: *begin,
                length: *length,
            },
            PeerMessage::Port(p) => Message::Port(*p),
            PeerMessage::Extended { id, payload } => Message::Extended { id: *id, payload: payload@ },
        }
    }
}

/// Three numbers in network byte order.
pub open spec fn three_words(a: u32, b: u32, c: u32) -> Seq<u8> {
    be_bytes(a as nat, 4) + be_bytes(b as nat, 4) + be_bytes(c as nat, 4)
}

/// What follows the length on the wire: the message's number and its fields.
pub open spec fn body(m: Message) -> Seq<u8> {
    match m {
        Message::KeepAlive => seq![],
        Message::Choke => seq![0u8],
        Message::Unchoke => seq![1u8],
        Message::Interested => seq![2u8],
        Message::NotInterested => seq![3u8],
        Message::Have(p) => seq![4u8] + be_bytes(p as nat, 4),
        Message::Bitfield(b) => seq![5u8] + b,
        Message::Request { index, begin, length } => seq![6u8] + three_words(index, begin, length),
        Message::Piece { index, begin, data } => seq![7u8] + be_bytes(index as nat, 4) + be_bytes(
            begin as nat,
            4,
        ) + data,
        Message::Cancel { index, begin, length } => seq![8u8] + three_words(index, begin, length),
        Message::Port(p) => seq![9u8] + be_bytes(p as nat, 2),
        Message::Extended { id, payload } => seq![20u8, id] + payload,
    }
}

/// A message on the wire: the length of its body and the body.
pub open spec fn wire(m: Message) -> Seq<u8> {
    be_bytes(body(m).len(), 4) + body(m)
}

/// The number at a position, if there are four bytes for it.
pub open spec fn word_at(s: Seq<u8>, pos: int) -> u32 {
    be_value(s.subrange(pos, pos + 4)) as u32
}

/// Why a message is refused: with a message of this library, or with one of
/// the standard library.
pub enum WireFault {
    Message(Seq<char>),
    Std,
}

/// The message that a body stands for.
pub open spec fn read_body(data: Seq<u8>) -> Result<Message, WireFault> {
    let size = data.len() - 1;
    if data.len() == 0 {
        Ok(Message::KeepAlive)
    } else if data[0] == 0 {
        Ok(Message::Choke)
    } else if data[0] == 1 {
        Ok(Message::Unchoke)
    } else if data[0] == 2 {
        Ok(Message::Interested)
    } else if data[0] == 3 {
        Ok(Message::NotInterested)
    } else if data[0] == 4 {
        if size >= 4 {
            Ok(Message::Have(word_at(data, 1)))
        } else {
            Err(WireFault::Std)
        }
    } else if data[0] == 5 {
        Ok(Message::Bitfield(data.skip(1)))
    } else if data[0] == 6 {
        if size >= 12 {
            Ok(
                Message::Request {
                    index: word_at(data, 1),
                    begin: word_at(data, 5),
                    length: word_at(data, 9),
                },
            )
        } else {
            Err(WireFault::Std)
        }
    } else if data[0] == 7 {
        if size >= 8 {
            Ok(
                Message::Piece {
                    index: word_at(data, 1),
                    begin: word_at(data, 5),
                    data: data.skip(9),
                },
            )
        } else {
            Err(
                WireFault::Message(
                    "Piece message too short: "@ + decimal(size as nat) + " bytes"@,
                ),
            )
        }
    } else if data[0] == 8 {
        if size >= 12 {
            Ok(
                Message::Cancel {
                    index: word_at(data, 1),
                    begin: word_at(data, 5),
                    length: word_at(data, 9),
                },
            )
        } else {
            Err(WireFault::Std)
        }
    } else if data[0] == 9 {
        if size >= 2 {
            Ok(Message::Port(be_value(data.subrange(1, 3)) as u16))
        } else {
            Err(WireFault::Std)
        }
    } else if data[0] == 20 {
        if size == 0 {
            Ok(Message::Extended { id: 0, payload: seq![] })
        } else {
            Ok(Message::Extended { id: data[1], payload: data.skip(2) })
        }
    } else {
        Err(WireFault::Message("Unknown message id: "@ + decimal(data[0] as nat)))
    }
}

/// The result that a reading must give.
pub open spec fn wire_agrees(
    r: Result<PeerMessage, TorrentError>,
    expected: Result<Message, WireFault>,
) -> bool {
    match (r, expected) {
        (Ok(m), Ok(s)) => m@ == s,
        (Err(TorrentError::Peer(t)), Err(WireFault::Message(m))) => t@ == m,
        (Err(TorrentError::Peer(_)), Err(WireFault::Std)) => true,
        _ => false,
    }
}

fn read_word(data: &[u8], pos: usize) -> (r: Result<u32, TorrentError>)
    requires
        pos <= data.len(),
    ensures
        match r {
            Ok(v) => pos + 4 <= data@.len() && v == word_at(data@, pos as int),
            Err(TorrentError::Peer(_)) => pos + 4 > data@.len(),
            _ => false,
        },
{
    let rest = vstd::slice::slice_subrange(data, pos, data.len());
    match read_u32(rest) {
        Ok(v) => {
            assert(rest@.take(4) =~= data@.subrange(pos as int, pos + 4));
            Ok(v)
        },
        Err(e) => Err(TorrentError::Peer(e.to_string())),
    }
}

impl PeerMessage {
    /// The message on the wire.
    pub fn encode(&self) -> (buf: Vec<u8>)
        requires
            body(self@).len() <= u32::MAX,
        ensures
            buf@ == wire(self@),
    {
        let mut buf: Vec<u8> = Vec::new();
        proof {
            assert forall|v: nat, n: nat| #[trigger] be_bytes(v, n).len() == n by {
                lemma_be_bytes_len(v, n);
            }
        }
        match self {
            PeerMessage::KeepAlive => {
                write_u32(&mut buf, 0);
            },
            PeerMessage::Choke => {
                write_u32(&mut buf, 1);
                buf.push(0);
            },
            PeerMessage::Unchoke => {
                write_u32(&mut buf, 1);
                buf.push(1);
            },
            PeerMessage::Interested => {
                write_u32(&mut buf, 1);
                buf.push(2);
            },
            PeerMessage::NotInterested => {
                write_u32(&mut buf, 1);
                buf.push(3);
            },
            PeerMessage::Have(piece) => {
                write_u32(&mut buf, 5);
                buf.push(4);
                write_u32(&mut buf, *piece);
            },
            PeerMessage::Bitfield(bits) => {
                write_u32(&mut buf, 1 + bits.len() as u32);
                buf.push(5);
                buf.extend_from_slice(bits.as_slice());
            },
            PeerMessage::Request { index, begin, length } => {
                write_u32(&mut buf, 13);
                buf.push(6);
                write_u32(&mut buf, *index);
                write_u32(&mut buf, *begin);
                write_u32(&mut buf, *length);
            },
            PeerMessage::Piece { index, begin, data } => {
                write_u32(&mut buf, 9 + data.len() as u32);
                buf.push(7);
                write_u32(&mut buf, *index);
                write_u32(&mut buf, *begin);
                buf.extend_from_slice(data.as_slice());
            },
            PeerMessage::Cancel { index, begin, length } => {
                write_u32(&mut buf, 13);
                buf.push(8);
                write_u32(&mut buf, *index);
                write_u32(&mut buf, *begin);
                write_u32(&mut buf, *length);
            },
            PeerMessage::Port(port) => {
                write_u32(&mut buf, 3);
                buf.push(9);
                write_u16(&mut buf, *port);
            },
            PeerMessage::Extended { id, payload } => {
                write_u32(&mut buf, 2 + payload.len() as u32);
                buf.push(20);
                buf.push(*id);
                buf.extend_from_slice(payload.as_slice());
            },
        }
        assert(buf@ =~= wire(self@));
        buf
    }

    /// Reads the body of a message.
    pub fn decode(data: &[u8]) -> (r: Result<PeerMessage, TorrentError>)
        ensures
            wire_agrees(r, read_body(data@)),
    {
        if data.len() == 0 {
            return Ok(PeerMessage::KeepAlive);
        }
        let id: u8 = data[0];
        let n: usize = data.len();
        if id == 0 {
            Ok(PeerMessage::Choke)
        } else if id == 1 {
            Ok(PeerMessage::Unchoke)
        } else if id == 2 {
            Ok(PeerMessage::Interested)
        } else if id == 3 {
            Ok(PeerMessage::NotInterested)
        } else if id == 4 {
            match read_word(data, 1) {
                Ok(piece) => Ok(PeerMessage::Have(piece)),
                Err(e) => Err(e),
            }
        } else if id == 5 {
            let bits = copy_range(data, 1, n);
            assert(bits@ =~= data@.skip(1));
            Ok(PeerMessage::Bitfield(bits))
        } else if id == 6 {
            match Self::read_request(data) {
                Ok((index, begin, length)) => Ok(PeerMessage::Request { index, begin, length }),
                Err(e) => Err(e),
            }
        } else if id == 7 {
            if n - 1 < 8 {
                let mut message = joined(
                    "Piece message too short: ",
                    decimal_string((n - 1) as u64).as_str(),
                );
                message.append(" bytes");
                return Err(TorrentError::Peer(message));
            }
            match (read_word(data, 1), read_word(data, 5)) {
                (Ok(index), Ok(begin)) => {
                    let block = copy_range(data, 9, n);
                    assert(block@ =~= data@.skip(9));
                    Ok(PeerMessage::Piece { index, begin, data: block })
                },
                (Err(e), _) => Err(e),
                (_, Err(e)) => Err(e),
            }
        } else if id == 8 {
            match Self::read_request(data) {
                Ok((index, begin, length)) => Ok(PeerMessage::Cancel { index, begin, length }),
                Err(e) => Err(e),
            }
        } else if id == 9 {
            let rest = vstd::slice::slice_subrange(data, 1, n);
            match read_u16(rest) {
                Ok(port) => {
                    assert(rest@.take(2) =~= data@.subrange(1, 3));
                    Ok(PeerMessage::Port(port))
                },
                Err(e) => Err(TorrentError::Peer(e.to_string())),
            }
        } else if id == 20 {
            if n == 1 {
                let empty: Vec<u8> = Vec::new();
                assert(empty@ =~= seq![]);
                return Ok(PeerMessage::Extended { id: 0, payload: empty });
            }
            let payload = copy_range(data, 2, n);
            assert(payload@ =~= data@.skip(2));
            Ok(PeerMessage::Extended { id: data[1], payload })
        } else {
            Err(
                TorrentError::Peer(
                    joined("Unknown message id: ", decimal_string(id as u64).as_str()),
                ),
            )
        }
    }

    /// Reads the three numbers of a request.
    fn read_request(data: &[u8]) -> (r: Result<(u32, u32, u32), TorrentError>)
        requires
            data.len() > 0,
        ensures
            match r {
                Ok((a, b, c)) => data@.len() >= 13 && a == word_at(data@, 1) && b == word_at(
                    data@,
                    5,
                ) && c == word_at(data@, 9),
                Err(TorrentError::Peer(_)) => data@.len() < 13,
                _ => false,
            },
    {
        let index: u32 = match read_word(data, 1) {
            Ok(v) => v,
            Err(e) => {
                return Err(e);
            },
        };
        let begin: u32 = match read_word(data, 5) {
            Ok(v) => v,
            Err(e) => {
                return Err(e);
            },
        };
        let length: u32 = match read_word(data, 9) {
            Ok(v) => v,
            Err(e) => {
                return Err(e);
            },
        };
        Ok((index, begin, length))
    }
}

/// Reading the body of a message gives the message back.
pub proof fn law_wire_round_trip(m: Message)
    ensures
        read_body(body(m)) == Ok::<Message, WireFault>(m),
        wire(m).skip(4) == body(m),
        body(m).len() <= u32::MAX ==> be_value(wire(m).take(4)) == body(m).len(),
{
    lemma_byte_ranges();
    let b = body(m);
    lemma_be_bytes_len(b.len(), 4);
    assert(wire(m).skip(4) =~= b);
    assert(wire(m).take(4) =~= be_bytes(b.len(), 4));
    if b.len() <= u32::MAX {
        lemma_be_round_trip(b.len(), 4);
    }
    match m {
        Message::Have(p) => {
            lemma_be_round_trip(p as nat, 4);
            assert(b.subrange(1, 5) =~= be_bytes(p as nat, 4));
        },
        Message::Bitfield(s) => {
            assert(b.skip(1) =~= s);
        },
        Message::Request { index, begin, length } => {
            lemma_three_words(b, index, begin, length);
        },
        Message::Cancel { index, begin, length } => {
            lemma_three_words(b, index, begin, length);
        },
        Message::Piece { index, begin, data } => {
            lemma_be_round_trip(index as nat, 4);
            lemma_be_round_trip(begin as nat, 4);
            assert(b.subrange(1, 5) =~= be_bytes(index as nat, 4));
            assert(b.subrange(5, 9) =~= be_bytes(begin as nat, 4));
            assert(b.skip(9) =~= data);
        },
        Message::Port(p) => {
            lemma_be_round_trip(p as nat, 2);
            assert(b.subrange(1, 3) =~= be_bytes(p as nat, 2));
        },
        Message::Extended { id, payload } => {
            assert(b.skip(2) =~= payload);
        },
        _ => {},
    }
}

proof fn lemma_three_words(s: Seq<u8>, x: u32, y: u32, z: u32)
    requires
        s.len() > 0,
        s.skip(1) == three_words(x, y, z) || s =~= seq![s[0]] + three_words(x, y, z),
    ensures
        s.len() == 13,
        word_at(s, 1) == x,
        word_at(s, 5) == y,
        word_at(s, 9) == z,
{
    lemma_byte_ranges();
    lemma_be_round_trip(x as nat, 4);
    lemma_be_round_trip(y as nat, 4);
    lemma_be_round_trip(z as nat, 4);
    assert(s =~= seq![s[0]] + three_words(x, y, z));
    assert(s.subrange(1, 5) =~= be_bytes(x as nat, 4));
    assert(s.subrange(5, 9) =~= be_bytes(y as nat, 4));
    assert(s.subrange(9, 13) =~= be_bytes(z as nat, 4));
}

} // verus!

//! Extension messages: the extended handshake, peer exchange, and the exchange
//! of torrent metadata.

use crate::bencode::grammar::{encode, parsed};
use crate::bencode::{dictionary, field, lookup, Bencode, BencodeDict, BencodeParser, BencodeValue};
use crate::bencode::{lemma_dictionary_2, lemma_dictionary_3, lemma_model};
use crate::bytes::{copy_range, find_byte, first_index};
use crate::metainfo::as_unsigned;
use crate::net::{compact_v4, SocketAddrV4};
use crate::peer::message::PeerMessage;
use crate::text::{parse_usize, usize_value};
use vstd::prelude::*;
use vstd::utf8::{decode_utf8, encode_utf8, valid_utf8};

verus! {

/// The extension ids that the client advertises.
pub open spec fn our_extensions() -> Seq<(Seq<char>, Bencode)> {
    dictionary(
        seq![("ut_pex"@, Bencode::Integer(1)), ("ut_metadata"@, Bencode::Integer(2))],
    )
}

/// What the client says in its extended handshake.
pub open spec fn our_handshake(reqq: u32) -> Seq<(Seq<char>, Bencode)> {
    dictionary(
        seq![
            ("m"@, Bencode::Dict(our_extensions())),
            ("v"@, Bencode::Bytes(encode_utf8("retorrent-0.1.0"@))),
            ("reqq"@, Bencode::Integer(reqq as int)),
        ],
    )
}

/// The low byte of an integer.
pub open spec fn low_byte(i: int) -> u8 {
    (i % 256) as u8
}

/// The id that an extension map gives to an extension.
pub open spec fn extension_id(m: Option<Bencode>, name: Seq<char>) -> Option<u8> {
    match m {
        Some(Bencode::Dict(e)) => match lookup(e, name) {
            Some(Bencode::Integer(i)) => Some(low_byte(i)),
            _ => None,
        },
        _ => None,
    }
}

/// The ids of peer exchange and metadata exchange in an extended handshake.
pub open spec fn extension_ids(payload: Seq<u8>) -> (Option<u8>, Option<u8>) {
    match parsed(payload) {
        Ok(b) => (
            extension_id(field(b, "m"@), "ut_pex"@),
            extension_id(field(b, "m"@), "ut_metadata"@),
        ),
        Err(_) => (None, None),
    }
}

/// The compact forms of addresses, one after the other.
pub open spec fn compact_list(addrs: Seq<SocketAddrV4>) -> Seq<u8>
    decreases addrs.len(),
{
    if addrs.len() == 0 {
        seq![]
    } else {
        compact_list(addrs.drop_last()) + addrs.last().compact()
    }
}

/// The addresses that the first `n` groups of six bytes stand for, without
/// those whose port is zero.
pub open spec fn peers_in(bytes: Seq<u8>, n: int) -> Seq<SocketAddrV4>
    decreases n,
{
    if n <= 0 {
        seq![]
    } else {
        let a = compact_v4(bytes.subrange(6 * (n - 1), 6 * n));
        if a.port > 0 {
            peers_in(bytes, n - 1).push(a)
        } else {
            peers_in(bytes, n - 1)
        }
    }
}

/// The addresses bound to a key of a peer exchange message.
pub open spec fn peers_field(b: Bencode, key: Seq<char>) -> Seq<SocketAddrV4> {
    match field(b, key) {
        Some(Bencode::Bytes(bytes)) => peers_in(bytes, bytes.len() as int / 6),
        _ => seq![],
    }
}

/// The peers that a peer exchange message adds and drops.
pub open spec fn exchanged_peers(payload: Seq<u8>) -> (Seq<SocketAddrV4>, Seq<SocketAddrV4>) {
    match parsed(payload) {
        Ok(b) => (peers_field(b, "added"@), peers_field(b, "dropped"@)),
        Err(_) => (seq![], seq![]),
    }
}

/// The flags that a peer exchange message gives to each added peer.
pub open spec fn peer_flags(n: nat) -> Seq<u8> {
    Seq::new(n, |i: int| 1u8)
}

/// A peer exchange message.
pub open spec fn exchange_entries(added: Seq<SocketAddrV4>, dropped: Seq<SocketAddrV4>) -> Seq<
    (Seq<char>, Bencode),
> {
    dictionary(
        seq![
            ("added"@, Bencode::Bytes(compact_list(added))),
            ("added.f"@, Bencode::Bytes(peer_flags(added.len()))),
            ("dropped"@, Bencode::Bytes(compact_list(dropped))),
        ],
    )
}

/// A metadata message without data: its type and the piece it is about.
pub open spec fn metadata_entries(kind: int, piece: int) -> Seq<(Seq<char>, Bencode)> {
    dictionary(seq![("msg_type"@, Bencode::Integer(kind)), ("piece"@, Bencode::Integer(piece))])
}

/// A metadata message that announces data and, if known, the total size.
pub open spec fn metadata_data_entries(piece: int, total: Option<int>) -> Seq<
    (Seq<char>, Bencode),
> {
    match total {
        None => metadata_entries(1, piece),
        Some(t) => dictionary(
            seq![
                ("msg_type"@, Bencode::Integer(1)),
                ("piece"@, Bencode::Integer(piece)),
                ("total_size"@, Bencode::Integer(t)),
            ],
        ),
    }
}

/// Where the dictionary that data starts with ends, looking from `i` inside
/// `depth` dictionaries and lists. Integers and byte strings are passed over.
pub open spec fn dict_end_from(data: Seq<u8>, i: int, depth: int) -> Option<int>
    decreases
            (if i < data.len() {
                data.len() - i
            } else {
                0
            }),
{
    if i < 0 || i >= data.len() {
        None
    } else if data[i] == 100 || data[i] == 108 {
        dict_end_from(data, i + 1, depth + 1)
    } else if data[i] == 101 {
        if depth == 1 {
            Some(i + 1)
        } else {
            dict_end_from(data, i + 1, depth - 1)
        }
    } else if data[i] == 105 {
        match first_index(data, i, 101) {
            Some(e) => if e >= i {
                dict_end_from(data, e + 1, depth)
            } else {
                None
            },
            None => None,
        }
    } else if 48 <= data[i] <= 57 {
        let colon = match first_index(data, i, 58) {
            Some(c) => c,
            None => data.len() as int,
        };
        let raw = data.subrange(i, colon);
        if valid_utf8(raw) {
            match usize_value(decode_utf8(raw)) {
                Some(len) => if colon + 1 + len > i {
                    dict_end_from(data, colon + 1 + len, depth)
                } else {
                    None
                },
                None => None,
            }
        } else {
            None
        }
    } else {
        None
    }
}

/// Where the dictionary that data starts with ends.
pub open spec fn dict_end(data: Seq<u8>) -> Option<int> {
    if data.len() == 0 || data[0] != 100 {
        None
    } else {
        dict_end_from(data, 0, 0)
    }
}

/// The integer bound to a key, or a default.
pub open spec fn integer_or(e: Seq<(Seq<char>, Bencode)>, key: Seq<char>, default: int) -> int {
    match lookup(e, key) {
        Some(Bencode::Integer(i)) => i,
        _ => default,
    }
}

/// An integer as a machine-sized unsigned number.
pub open spec fn as_size(i: int) -> usize {
    (as_unsigned(i) as u64) as usize
}

/// What a metadata message says: its type, the piece, the total size, and the
/// data after the dictionary. Only a message that announces data has a size. A
/// message that is not understood has type 255.
pub open spec fn metadata_message(payload: Seq<u8>) -> (u8, usize, usize, Seq<u8>) {
    let unknown = (255u8, 0usize, 0usize, Seq::<u8>::empty());
    match dict_end(payload) {
        None => unknown,
        Some(end) => match parsed(payload.take(end)) {
            Ok(Bencode::Dict(e)) => {
                let kind = low_byte(integer_or(e, "msg_type"@, 255));
                let size = if kind == 1 {
                    as_size(integer_or(e, "total_size"@, 0))
                } else {
                    0
                };
                (kind, as_size(integer_or(e, "piece"@, 0)), size, payload.skip(end))
            },
            _ => unknown,
        },
    }
}

fn byte_string(b: Vec<u8>) -> (v: BencodeValue)
    ensures
        v@ == Bencode::Bytes(b@),
{
    broadcast use lemma_model;

    BencodeValue::ByteString(b)
}

fn integer(i: i64) -> (v: BencodeValue)
    ensures
        v@ == Bencode::Integer(i as int),
{
    broadcast use lemma_model;

    BencodeValue::Integer(i)
}

fn encode_dict(d: BencodeDict) -> (r: Vec<u8>)
    ensures
        r@ == encode(Bencode::Dict(d@)),
{
    broadcast use lemma_model;

    BencodeParser::encode(&BencodeValue::Dict(d))
}

fn truncate_byte(i: i64) -> (r: u8)
    ensures
        r == low_byte(i as int),
{
    let u: u64 = crate::metainfo::unsigned(i);
    (u % 256) as u8
}

fn truncate_size(i: i64) -> (r: usize)
    ensures
        r == as_size(i as int),
{
    crate::metainfo::unsigned(i) as usize
}

fn integer_of(d: &BencodeDict, key: &str, default: i64) -> (r: i64)
    ensures
        r == integer_or(d@, key@, default as int),
{
    match d.get(key) {
        Some(v) => match v.as_integer() {
            Some(i) => i,
            None => default,
        },
        None => default,
    }
}

fn id_of(m: Option<&BencodeValue>, name: &str) -> (r: Option<u8>)
    ensures
        r == extension_id(
            match m {
                Some(v) => Some(v@),
                None => None,
            },
            name@,
        ),
{
    match m {
        Some(v) => match v.dict_get(name) {
            Some(id) => match id.as_integer() {
                Some(i) => Some(truncate_byte(i)),
                None => None,
            },
            None => None,
        },
        None => None,
    }
}

/// Appends the compact forms of addresses.
pub fn compact_addresses(addrs: &[SocketAddrV4]) -> (r: Vec<u8>)
    ensures
        r@ == compact_list(addrs@),
{
    let mut out: Vec<u8> = Vec::new();
    let mut i: usize = 0;
    assert(addrs@.take(0) =~= seq![]);
    while i < addrs.len()
        invariant
            i <= addrs.len(),
            out@ == compact_list(addrs@.take(i as int)),
        decreases addrs.len() - i,
    {
        addrs[i].push_compact(&mut out);
        i += 1;
        proof {
            let t = addrs@.take(i as int);
            assert(t.drop_last() =~= addrs@.take(i - 1));
        }
    }
    assert(addrs@.take(i as int) =~= addrs@);
    out
}

/// Reads the addresses with a port from their compact forms.
pub fn read_peers(bytes: &[u8]) -> (r: Vec<SocketAddrV4>)
    ensures
        r@ == peers_in(bytes@, bytes@.len() as int / 6),
{
    let mut out: Vec<SocketAddrV4> = Vec::new();
    let mut pos: usize = 0;
    let ghost mut n: int = 0;
    while bytes.len() - pos >= 6
        invariant
            pos <= bytes.len(),
            pos == 6 * n,
            out@ == peers_in(bytes@, n),
        decreases bytes.len() - pos,
    {
        let a = SocketAddrV4::from_compact(vstd::slice::slice_subrange(bytes, pos, pos + 6));
        if a.port > 0 {
            out.push(a);
        }
        pos += 6;
        proof {
            n = n + 1;
        }
    }
    out
}

/// Finds the end of the dictionary that data starts with.
pub fn find_dict_end(data: &[u8]) -> (r: Option<usize>)
    ensures
        match r {
            Some(e) => dict_end(data@) == Some(e as int) && e <= data@.len(),
            None => dict_end(data@) is None,
        },
{
    if data.len() == 0 || data[0] != 100 {
        return None;
    }
    let mut i: usize = 0;
    let mut depth: usize = 0;
    while i < data.len()
        invariant
            i <= data.len(),
            depth <= i,
            i > 0 ==> depth > 0,
            i == 0 ==> data@.len() > 0 && data@[0] == 100,
            dict_end(data@) == dict_end_from(data@, i as int, depth as int),
        decreases data.len() - i,
    {
        let b: u8 = data[i];
        if b == 100 || b == 108 {
            depth += 1;
            i += 1;
        } else if b == 101 {
            if depth == 1 {
                return Some(i + 1);
            }
            depth -= 1;
            i += 1;
        } else if b == 105 {
            match find_byte(data, i, 101) {
                Some(e) => {
                    i = e + 1;
                },
                None => {
                    return None;
                },
            }
        } else if 48 <= b && b <= 57 {
            let colon: usize = match find_byte(data, i, 58) {
                Some(c) => c,
                None => data.len(),
            };
            let text = match core::str::from_utf8(vstd::slice::slice_subrange(data, i, colon)) {
                Ok(s) => s,
                Err(_) => {
                    return None;
                },
            };
            let len: usize = match parse_usize(text) {
                Ok(n) => n,
                Err(_) => {
                    return None;
                },
            };
            if colon >= data.len() || len >= data.len() - colon - 1 {
                assert(dict_end_from(data@, colon + 1 + len, depth as int) is None);
                return None;
            }
            i = colon + 1 + len;
        } else {
            return None;
        }
    }
    None
}

impl PeerMessage {
    /// The payload of the client's extended handshake.
    pub fn build_extended_handshake_payload(reqq: u32) -> (r: Vec<u8>)
        ensures
            r@ == encode(Bencode::Dict(our_handshake(reqq))),
    {
        broadcast use lemma_model;

        let mut m = BencodeDict::new();
        m.insert("ut_pex".to_string(), integer(1));
        m.insert("ut_metadata".to_string(), integer(2));
        let version = vstd::slice::slice_to_vec("retorrent-0.1.0".as_bytes());
        let mut top = BencodeDict::new();
        let map = BencodeValue::Dict(m);
        proof {
            lemma_dictionary_2(("ut_pex"@, Bencode::Integer(1)), ("ut_metadata"@, Bencode::Integer(2)));
            lemma_dictionary_3(
                ("m"@, Bencode::Dict(our_extensions())),
                ("v"@, Bencode::Bytes(version@)),
                ("reqq"@, Bencode::Integer(reqq as int)),
            );
        }
        top.insert("m".to_string(), map);
        top.insert("v".to_string(), byte_string(version));
        top.insert("reqq".to_string(), integer(reqq as i64));
        encode_dict(top)
    }

    /// Reads the ids of peer exchange and of metadata exchange from an
    /// extended handshake.
    pub fn parse_extended_handshake(payload: &[u8]) -> (r: (Option<u8>, Option<u8>))
        ensures
            r == extension_ids(payload@),
    {
        let decoded = match BencodeParser::parse(payload) {
            Ok(v) => v,
            Err(_) => {
                return (None, None);
            },
        };
        let m = decoded.dict_get("m");
        (id_of(m, "ut_pex"), id_of(m, "ut_metadata"))
    }

    /// The payload of a peer exchange message.
    pub fn build_pex_payload(added: &[SocketAddrV4], dropped: &[SocketAddrV4]) -> (r: Vec<u8>)
        ensures
            r@ == encode(Bencode::Dict(exchange_entries(added@, dropped@))),
    {
        let added_compact = compact_addresses(added);
        let dropped_compact = compact_addresses(dropped);
        let flags: Vec<u8> = vec![1u8; added.len()];
        let mut dict = BencodeDict::new();
        proof {
            assert(flags@ =~= peer_flags(added@.len()));
            lemma_dictionary_3(
                ("added"@, Bencode::Bytes(compact_list(added@))),
                ("added.f"@, Bencode::Bytes(peer_flags(added@.len()))),
                ("dropped"@, Bencode::Bytes(compact_list(dropped@))),
            );
        }
        dict.insert("added".to_string(), byte_string(added_compact));
        dict.insert("added.f".to_string(), byte_string(flags));
        dict.insert("dropped".to_string(), byte_string(dropped_compact));
        encode_dict(dict)
    }

    /// Reads the peers that a peer exchange message adds and drops.
    pub fn parse_pex_payload(payload: &[u8]) -> (r: (Vec<SocketAddrV4>, Vec<SocketAddrV4>))
        ensures
            (r.0@, r.1@) == exchanged_peers(payload@),
    {
        let mut added: Vec<SocketAddrV4> = Vec::new();
        let mut dropped: Vec<SocketAddrV4> = Vec::new();
        assert(added@ =~= seq![] && dropped@ =~= seq![]);
        let decoded = match BencodeParser::parse(payload) {
            Ok(v) => v,
            Err(_) => {
                return (added, dropped);
            },
        };
        if let Some(v) = decoded.dict_get("added") {
            if let Some(bytes) = v.as_bytes() {
                added = read_peers(bytes);
            }
        }
        if let Some(v) = decoded.dict_get("dropped") {
            if let Some(bytes) = v.as_bytes() {
                dropped = read_peers(bytes);
            }
        }
        (added, dropped)
    }

    /// A metadata message of the given type about a piece.
    fn build_metadata_header(kind: i64, piece: usize) -> (r: BencodeDict)
        ensures
            r@ == metadata_entries(kind as int, (piece as i64) as int),
    {
        let mut dict = BencodeDict::new();
        proof {
            lemma_dictionary_2(
                ("msg_type"@, Bencode::Integer(kind as int)),
                ("piece"@, Bencode::Integer((piece as i64) as int)),
            );
        }
        dict.insert("msg_type".to_string(), integer(kind));
        dict.insert("piece".to_string(), integer(piece as i64));
        dict
    }

    /// A request for a piece of the metadata.
    pub fn build_metadata_request(piece: usize) -> (r: Vec<u8>)
        ensures
            r@ == encode(Bencode::Dict(metadata_entries(0, (piece as i64) as int))),
    {
        encode_dict(Self::build_metadata_header(0, piece))
    }

    /// A piece of the metadata, after a header that may give the total size.
    pub fn build_metadata_data(piece: usize, total_size: Option<usize>, data: &[u8]) -> (r: Vec<u8>)
        ensures
            r@ == encode(
                Bencode::Dict(
                    metadata_data_entries(
                        (piece as i64) as int,
                        match total_size {
                            Some(t) => Some((t as i64) as int),
                            None => None,
                        },
                    ),
                ),
            ) + data@,
    {
        let mut dict = Self::build_metadata_header(1, piece);
        if let Some(t) = total_size {
            proof {
                lemma_dictionary_2(
                    ("msg_type"@, Bencode::Integer(1)),
                    ("piece"@, Bencode::Integer((piece as i64) as int)),
                );
                lemma_dictionary_3(
                    ("msg_type"@, Bencode::Integer(1)),
                    ("piece"@, Bencode::Integer((piece as i64) as int)),
                    ("total_size"@, Bencode::Integer((t as i64) as int)),
                );
            }
            dict.insert("total_size".to_string(), integer(t as i64));
        }
        let mut payload = encode_dict(dict);
        payload.extend_from_slice(data);
        payload
    }

    /// A refusal to send a piece of the metadata.
    pub fn build_metadata_reject(piece: usize) -> (r: Vec<u8>)
        ensures
            r@ == encode(Bencode::Dict(metadata_entries(2, (piece as i64) as int))),
    {
        encode_dict(Self::build_metadata_header(2, piece))
    }

    /// Reads a metadata message: its type (0 request, 1 data, 2 reject), the
    /// piece, the total size (0 unless the type is 1), and the data after the
    /// dictionary.
    pub fn parse_metadata_message(payload: &[u8]) -> (r: (u8, usize, usize, Vec<u8>))
        ensures
            (r.0, r.1, r.2, r.3@) == metadata_message(payload@),
    {
        let empty: Vec<u8> = Vec::new();
        let end: usize = match find_dict_end(payload) {
            Some(e) => e,
            None => {
                return (255, 0, 0, empty);
            },
        };
        let raw = copy_range(payload, end, payload.len());
        let head = vstd::slice::slice_subrange(payload, 0, end);
        assert(head@ =~= payload@.take(end as int));
        assert(raw@ =~= payload@.skip(end as int));
        let decoded = match BencodeParser::parse(head) {
            Ok(v) => v,
            Err(_) => {
                return (255, 0, 0, empty);
            },
        };
        let dict = match decoded.as_dict() {
            Some(d) => d,
            None => {
                return (255, 0, 0, empty);
            },
        };
        let kind: u8 = truncate_byte(integer_of(dict, "msg_type", 255));
        let piece: usize = truncate_size(integer_of(dict, "piece", 0));
        let total: usize = if kind == 1 {
            truncate_size(integer_of(dict, "total_size", 0))
        } else {
            0
        };
        (kind, piece, total, raw)
    }
}

} // verus!

//! The messages of the DHT.

use crate::bencode::grammar::{encode, parsed};
use crate::bencode::{
    dictionary, lemma_dictionary_push, lemma_model, lookup, models, Bencode, BencodeDict,
    BencodeParser, BencodeValue,
};
use crate::bytes::bytes_equal;
use crate::dht::compact::{build_compact_peer_addr, compact_peer, parse_compact_peer_addr, peer_of};
use crate::metainfo::{bytes_field, unsigned};
use crate::net::SocketAddr;
use crate::peer::extension::low_byte;
use crate::types::{array20, InfoHash};
use vstd::prelude::*;
use vstd::utf8::encode_utf8;

verus! {

/// Writes the number of a transaction.
pub fn encode_transaction_id(tid: u16) -> (r: Vec<u8>)
    ensures
        r@ == crate::bytes::be_bytes(tid as nat, 2),
{
    let mut buf: Vec<u8> = Vec::new();
    crate::bytes::push_be(&mut buf, tid as u128, 2);
    assert(buf@ =~= crate::bytes::be_bytes(tid as nat, 2));
    buf
}

/// Reads the number of a transaction: two bytes.
pub fn decode_transaction_id(data: &[u8]) -> (r: Option<u16>)
    ensures
        match r {
            Some(t) => data@.len() == 2 && t == crate::bytes::be_value(data@),
            None => data@.len() != 2,
        },
{
    if data.len() != 2 {
        return None;
    }
    assert(data@ =~= seq![data@[0], data@[1]]);
    Some(crate::bytes::be_u16(data[0], data[1]))
}

/// Reading the number of a transaction gives it back.
pub proof fn law_transaction_id(tid: u16)
    ensures
        crate::bytes::be_bytes(tid as nat, 2).len() == 2,
        crate::bytes::be_value(crate::bytes::be_bytes(tid as nat, 2)) == tid,
{
    crate::bytes::lemma_byte_ranges();
    crate::bytes::lemma_be_round_trip(tid as nat, 2);
}

/// What a query asks for.
#[derive(Debug, Clone, Copy, PartialEq, Eq, Structural)]
pub enum QueryMethod {
    Ping,
    FindNode,
    GetPeers,
    AnnouncePeer,
}

impl QueryMethod {
    /// The name of a query.
    pub open spec fn name(self) -> Seq<u8> {
        match self {
            QueryMethod::Ping => encode_utf8("ping"@),
            QueryMethod::FindNode => encode_utf8("find_node"@),
            QueryMethod::GetPeers => encode_utf8("get_peers"@),
            QueryMethod::AnnouncePeer => encode_utf8("announce_peer"@),
        }
    }

    /// The query with a given name.
    pub open spec fn named(b: Seq<u8>) -> Option<QueryMethod> {
        if b == QueryMethod::Ping.name() {
            Some(QueryMethod::Ping)
        } else if b == QueryMethod::FindNode.name() {
            Some(QueryMethod::FindNode)
        } else if b == QueryMethod::GetPeers.name() {
            Some(QueryMethod::GetPeers)
        } else if b == QueryMethod::AnnouncePeer.name() {
            Some(QueryMethod::AnnouncePeer)
        } else {
            None
        }
    }

    /// The query with a given name.
    pub fn from_bytes(b: &[u8]) -> (r: Option<QueryMethod>)
        ensures
            r == Self::named(b@),
    {
        if bytes_equal(b, "ping".as_bytes()) {
            Some(QueryMethod::Ping)
        } else if bytes_equal(b, "find_node".as_bytes()) {
            Some(QueryMethod::FindNode)
        } else if bytes_equal(b, "get_peers".as_bytes()) {
            Some(QueryMethod::GetPeers)
        } else if bytes_equal(b, "announce_peer".as_bytes()) {
            Some(QueryMethod::AnnouncePeer)
        } else {
            None
        }
    }

    /// The name of the query.
    pub fn as_bytes(&self) -> (r: &'static [u8])
        ensures
            r@ == self.name(),
    {
        match self {
            QueryMethod::Ping => "ping".as_bytes(),
            QueryMethod::FindNode => "find_node".as_bytes(),
            QueryMethod::GetPeers => "get_peers".as_bytes(),
            QueryMethod::AnnouncePeer => "announce_peer".as_bytes(),
        }
    }
}

/// Which families of addresses are wanted.
#[derive(Debug, Clone, Copy, PartialEq, Eq, Structural)]
pub enum Want {
    V4,
    V6,
    Both,
    Neither,
}

/// The items of the list that says which families are wanted.
pub open spec fn want_items(w: Want) -> Seq<Bencode> {
    match w {
        Want::V4 => seq![Bencode::Bytes(encode_utf8("n4"@))],
        Want::V6 => seq![Bencode::Bytes(encode_utf8("n6"@))],
        Want::Both => seq![
            Bencode::Bytes(encode_utf8("n4"@)),
            Bencode::Bytes(encode_utf8("n6"@)),
        ],
        Want::Neither => seq![],
    }
}

/// What a list says is wanted; other items do not matter.
pub open spec fn want_of(l: Seq<Bencode>) -> Want {
    let v4 = l.contains(Bencode::Bytes(encode_utf8("n4"@)));
    let v6 = l.contains(Bencode::Bytes(encode_utf8("n6"@)));
    if v4 && v6 {
        Want::Both
    } else if v4 {
        Want::V4
    } else if v6 {
        Want::V6
    } else {
        Want::Neither
    }
}

impl Want {
    /// The family of an address.
    pub fn for_addr(addr: SocketAddr) -> (r: Want)
        ensures
            r == if addr is V6 {
                Want::V6
            } else {
                Want::V4
            },
    {
        match addr {
            SocketAddr::V6(_) => Want::V6,
            SocketAddr::V4(_) => Want::V4,
        }
    }

    /// The list that says which families are wanted.
    pub fn serialize_list(self) -> (r: BencodeValue)
        ensures
            r@ == Bencode::List(want_items(self)),
    {
        broadcast use lemma_model;

        let mut items: Vec<BencodeValue> = Vec::new();
        match self {
            Want::V4 => {
                items.push(bencode_str("n4".as_bytes()));
            },
            Want::V6 => {
                items.push(bencode_str("n6".as_bytes()));
            },
            Want::Both => {
                items.push(bencode_str("n4".as_bytes()));
                items.push(bencode_str("n6".as_bytes()));
            },
            Want::Neither => {},
        }
        assert(models(items@) =~= want_items(self));
        BencodeValue::List(items)
    }

    /// Reads the list that says which families are wanted.
    pub fn from_list(list: &[BencodeValue]) -> (r: Want)
        ensures
            r == want_of(models(list@)),
    {
        let ghost all = models(list@);
        let ghost n4 = Bencode::Bytes(encode_utf8("n4"@));
        let ghost n6 = Bencode::Bytes(encode_utf8("n6"@));
        let mut v4: bool = false;
        let mut v6: bool = false;
        let mut i: usize = 0;
        while i < list.len()
            invariant
                i <= list.len(),
                all == models(list@),
                n4 == Bencode::Bytes(encode_utf8("n4"@)),
                n6 == Bencode::Bytes(encode_utf8("n6"@)),
                v4 == exists|k: int| 0 <= k < i && #[trigger] all[k] == n4,
                v6 == exists|k: int| 0 <= k < i && #[trigger] all[k] == n6,
            decreases list.len() - i,
        {
            assert(all[i as int] == list@[i as int]@);
            if let Some(b) = list[i].as_bytes() {
                if bytes_equal(b, "n4".as_bytes()) {
                    v4 = true;
                }
                if bytes_equal(b, "n6".as_bytes()) {
                    v6 = true;
                }
            }
            i += 1;
        }
        assert(v4 == all.contains(n4));
        assert(v6 == all.contains(n6));
        if v4 && v6 {
            Want::Both
        } else if v4 {
            Want::V4
        } else if v6 {
            Want::V6
        } else {
            Want::Neither
        }
    }
}

/// An error that a node reports.
#[derive(Debug)]
pub struct ErrorDescription {
    pub code: i32,
    pub message: Vec<u8>,
}

/// A message of the DHT.
#[derive(Debug)]
pub enum Message {
    PingRequest { transaction_id: Vec<u8>, id: InfoHash },
    PingResponse { transaction_id: Vec<u8>, id: InfoHash, ip: Option<SocketAddr> },
    FindNodeRequest { transaction_id: Vec<u8>, id: InfoHash, target: InfoHash, want: Want },
    FindNodeResponse {
        transaction_id: Vec<u8>,
        id: InfoHash,
        nodes: Vec<u8>,
        nodes6: Vec<u8>,
        ip: Option<SocketAddr>,
    },
    GetPeersRequest { transaction_id: Vec<u8>, id: InfoHash, info_hash: InfoHash, want: Want },
    GetPeersResponse {
        transaction_id: Vec<u8>,
        id: InfoHash,
        token: Vec<u8>,
        values: Vec<SocketAddr>,
        nodes: Vec<u8>,
        nodes6: Vec<u8>,
        ip: Option<SocketAddr>,
    },
    AnnouncePeerRequest {
        transaction_id: Vec<u8>,
        id: InfoHash,
        info_hash: InfoHash,
        token: Vec<u8>,
        port: u16,
        implied_port: u8,
    },
    AnnouncePeerResponse { transaction_id: Vec<u8>, id: InfoHash, ip: Option<SocketAddr> },
    Error { transaction_id: Vec<u8>, code: i32, message: Vec<u8> },
}

/// What a message says besides its transaction.
pub enum Content {
    Ping { id: Seq<u8> },
    Pong { id: Seq<u8>, ip: Option<SocketAddr> },
    FindNode { id: Seq<u8>, target: Seq<u8>, want: Want },
    FoundNodes { id: Seq<u8>, nodes: Seq<u8>, nodes6: Seq<u8>, ip: Option<SocketAddr> },
    GetPeers { id: Seq<u8>, info_hash: Seq<u8>, want: Want },
    GotPeers {
        id: Seq<u8>,
        token: Seq<u8>,
        values: Seq<SocketAddr>,
        nodes: Seq<u8>,
        nodes6: Seq<u8>,
        ip: Option<SocketAddr>,
    },
    Announce { id: Seq<u8>, info_hash: Seq<u8>, token: Seq<u8>, port: u16, implied_port: u8 },
    Announced { id: Seq<u8>, ip: Option<SocketAddr> },
    Error { code: i32, message: Seq<u8> },
}

/// The model of a message: its transaction and what it says.
pub struct Krpc {
    pub transaction: Seq<u8>,
    pub content: Content,
}

impl View for Message {
    type V = Krpc;

    open spec fn view(&self) -> Krpc {
        match self {
            Message::PingRequest { transaction_id, id } => Krpc {
                transaction: transaction_id@,
                content: Content::Ping { id: id@ },
            },
            Message::PingResponse { transaction_id, id, ip } => Krpc {
                transaction: transaction_id@,
                content: Content::Pong { id: id@, ip: *ip },
            },
            Message::FindNodeRequest { transaction_id, id, target, want } => Krpc {
                transaction: transaction_id@,
                content: Content::FindNode { id: id@, target: target@, want: *want },
            },
            Message::FindNodeResponse { transaction_id, id, nodes, nodes6, ip } => Krpc {
                transaction: transaction_id@,
                content: Content::FoundNodes { id: id@, nodes: nodes@, nodes6: nodes6@, ip: *ip },
            },
            Message::GetPeersRequest { transaction_id, id, info_hash, want } => Krpc {
                transaction: transaction_id@,
                content: Content::GetPeers { id: id@, info_hash: info_hash@, want: *want },
            },
            Message::GetPeersResponse {
                transaction_id,
                id,
                token,
                values,
                nodes,
                nodes6,
                ip,
            } => Krpc {
                transaction: transaction_id@,
                content: Content::GotPeers {
                    id: id@,
                    token: token@,
                    values: values@,
                    nodes: nodes@,
                    nodes6: nodes6@,
                    ip: *ip,
                },
            },
            Message::AnnouncePeerRequest {
                transaction_id,
                id,
                info_hash,
                token,
                port,
                implied_port,
            } => Krpc {
                transaction: transaction_id@,
                content: Content::Announce {
                    id: id@,
                    info_hash: info_hash@,
                    token: token@,
                    port: *port,
                    implied_port: *implied_port,
                },
            },
            Message::AnnouncePeerResponse { transaction_id, id, ip } => Krpc {
                transaction: transaction_id@,
                content: Content::Announced { id: id@, ip: *ip },
            },
            Message::Error { transaction_id, code, message } => Krpc {
                transaction: transaction_id@,
                content: Content::Error { code: *code, message: message@ },
            },
        }
    }
}

impl Message {
    /// The transaction that the message belongs to.
    pub fn transaction_id(&self) -> (r: &[u8])
        ensures
            r@ == self@.transaction,
    {
        match self {
            Message::PingRequest { transaction_id, .. } => transaction_id.as_slice(),
            Message::PingResponse { transaction_id, .. } => transaction_id.as_slice(),
            Message::FindNodeRequest { transaction_id, .. } => transaction_id.as_slice(),
            Message::FindNodeResponse { transaction_id, .. } => transaction_id.as_slice(),
            Message::GetPeersRequest { transaction_id, .. } => transaction_id.as_slice(),
            Message::GetPeersResponse { transaction_id, .. } => transaction_id.as_slice(),
            Message::AnnouncePeerRequest { transaction_id, .. } => transaction_id.as_slice(),
            Message::AnnouncePeerResponse { transaction_id, .. } => transaction_id.as_slice(),
            Message::Error { transaction_id, .. } => transaction_id.as_slice(),
        }
    }
}

/// A binding of a byte string.
pub open spec fn binds(key: Seq<char>, b: Seq<u8>) -> (Seq<char>, Bencode) {
    (key, Bencode::Bytes(b))
}

/// A binding of a byte string that is left out if the string is empty.
pub open spec fn binds_some(key: Seq<char>, b: Seq<u8>) -> Seq<(Seq<char>, Bencode)> {
    if b.len() == 0 {
        seq![]
    } else {
        seq![binds(key, b)]
    }
}

/// The binding of the wanted families, left out if none is.
pub open spec fn want_bindings(w: Want) -> Seq<(Seq<char>, Bencode)> {
    if w == Want::Neither {
        seq![]
    } else {
        seq![("want"@, Bencode::List(want_items(w)))]
    }
}

/// The binding of the receiver's address, left out if unknown.
pub open spec fn ip_bindings(ip: Option<SocketAddr>) -> Seq<(Seq<char>, Bencode)> {
    match ip {
        Some(a) => seq![binds("ip"@, compact_peer(a))],
        None => seq![],
    }
}

/// The compact forms of addresses.
pub open spec fn value_items(values: Seq<SocketAddr>) -> Seq<Bencode> {
    Seq::new(values.len(), |i: int| Bencode::Bytes(compact_peer(values[i])))
}

/// The binding of addresses, left out if there are none.
pub open spec fn value_bindings(values: Seq<SocketAddr>) -> Seq<(Seq<char>, Bencode)> {
    if values.len() == 0 {
        seq![]
    } else {
        seq![("values"@, Bencode::List(value_items(values)))]
    }
}

/// The bindings of a query.
pub open spec fn query_bindings(
    t: Seq<u8>,
    q: QueryMethod,
    args: Seq<(Seq<char>, Bencode)>,
) -> Seq<(Seq<char>, Bencode)> {
    seq![
        binds("t"@, t),
        binds("y"@, encode_utf8("q"@)),
        binds("q"@, q.name()),
        ("a"@, Bencode::Dict(dictionary(args))),
    ]
}

/// The bindings of a response.
pub open spec fn response_bindings(
    t: Seq<u8>,
    args: Seq<(Seq<char>, Bencode)>,
    ip: Option<SocketAddr>,
) -> Seq<(Seq<char>, Bencode)> {
    seq![
        binds("t"@, t),
        binds("y"@, encode_utf8("r"@)),
        ("r"@, Bencode::Dict(dictionary(args))),
    ] + ip_bindings(ip)
}

/// The arguments of a query or response.
pub open spec fn argument_bindings(c: Content) -> Seq<(Seq<char>, Bencode)> {
    match c {
        Content::Ping { id } => seq![binds("id"@, id)],
        Content::Pong { id, ip } => seq![binds("id"@, id)],
        Content::Announced { id, ip } => seq![binds("id"@, id)],
        Content::FindNode { id, target, want } => seq![binds("id"@, id), binds("target"@, target)]
            + want_bindings(want),
        Content::FoundNodes { id, nodes, nodes6, ip } => seq![binds("id"@, id)] + binds_some(
            "nodes"@,
            nodes,
        ) + binds_some("nodes6"@, nodes6),
        Content::GetPeers { id, info_hash, want } => seq![
            binds("id"@, id),
            binds("info_hash"@, info_hash),
        ] + want_bindings(want),
        Content::GotPeers { id, token, values, nodes, nodes6, ip } => seq![
            binds("id"@, id),
            binds("token"@, token),
        ] + value_bindings(values) + binds_some("nodes"@, nodes) + binds_some("nodes6"@, nodes6),
        Content::Announce { id, info_hash, token, port, implied_port } => seq![
            binds("id"@, id),
            binds("info_hash"@, info_hash),
            binds("token"@, token),
            ("port"@, Bencode::Integer(port as int)),
            ("implied_port"@, Bencode::Integer(implied_port as int)),
        ],
        Content::Error { code, message } => seq![],
    }
}

/// The bindings that a message consists of.
pub open spec fn message_bindings(m: Krpc) -> Seq<(Seq<char>, Bencode)> {
    let t = m.transaction;
    let args = argument_bindings(m.content);
    match m.content {
        Content::Ping { id } => query_bindings(t, QueryMethod::Ping, args),
        Content::FindNode { id, target, want } => query_bindings(t, QueryMethod::FindNode, args),
        Content::GetPeers { id, info_hash, want } => query_bindings(t, QueryMethod::GetPeers, args),
        Content::Announce { id, info_hash, token, port, implied_port } => query_bindings(
            t,
            QueryMethod::AnnouncePeer,
            args,
        ),
        Content::Pong { id, ip } => response_bindings(t, args, ip),
        Content::Announced { id, ip } => response_bindings(t, args, ip),
        Content::FoundNodes { id, nodes, nodes6, ip } => response_bindings(t, args, ip),
        Content::GotPeers { id, token, values, nodes, nodes6, ip } => response_bindings(
            t,
            args,
            ip,
        ),
        Content::Error { code, message } => seq![
            binds("t"@, t),
            binds("y"@, encode_utf8("e"@)),
            (
                "e"@,
                Bencode::List(seq![Bencode::Integer(code as int), Bencode::Bytes(message)]),
            ),
        ],
    }
}

/// A message on the wire.
pub open spec fn message_bytes(m: Krpc) -> Seq<u8> {
    encode(Bencode::Dict(dictionary(message_bindings(m))))
}

/// A dictionary under construction.
struct DictBuilder {
    dict: BencodeDict,
    bindings: Ghost<Seq<(Seq<char>, Bencode)>>,
}

impl DictBuilder {
    spec fn wf(&self) -> bool {
        self.dict@ == dictionary(self.bindings@)
    }

    fn new() -> (r: DictBuilder)
        ensures
            r.wf(),
            r.bindings@ == Seq::<(Seq<char>, Bencode)>::empty(),
    {
        DictBuilder { dict: BencodeDict::new(), bindings: Ghost(Seq::empty()) }
    }

    fn put(&mut self, key: &str, value: BencodeValue)
        requires
            old(self).wf(),
        ensures
            final(self).wf(),
            final(self).bindings@ == old(self).bindings@.push((key@, value@)),
    {
        proof {
            lemma_dictionary_push(self.bindings@, key@, value@);
        }
        let ghost b = self.bindings@.push((key@, value@));
        self.dict.insert(key.to_string(), value);
        self.bindings = Ghost(b);
    }

    fn put_bytes(&mut self, key: &str, b: &[u8])
        requires
            old(self).wf(),
        ensures
            final(self).wf(),
            final(self).bindings@ == old(self).bindings@.push(binds(key@, b@)),
    {
        self.put(key, bencode_str(b));
    }

    fn put_some(&mut self, key: &str, b: &[u8])
        requires
            old(self).wf(),
        ensures
            final(self).wf(),
            final(self).bindings@ == old(self).bindings@ + binds_some(key@, b@),
    {
        let ghost before = self.bindings@;
        if b.len() > 0 {
            self.put_bytes(key, b);
        }
        assert(self.bindings@ =~= before + binds_some(key@, b@));
    }

    fn put_want(&mut self, want: Want)
        requires
            old(self).wf(),
        ensures
            final(self).wf(),
            final(self).bindings@ == old(self).bindings@ + want_bindings(want),
    {
        let ghost before = self.bindings@;
        if want != Want::Neither {
            self.put("want", want.serialize_list());
        }
        assert(self.bindings@ =~= before + want_bindings(want));
    }

    fn put_ip(&mut self, ip: Option<SocketAddr>)
        requires
            old(self).wf(),
        ensures
            final(self).wf(),
            final(self).bindings@ == old(self).bindings@ + ip_bindings(ip),
    {
        let ghost before = self.bindings@;
        if let Some(a) = ip {
            self.put_bytes("ip", build_compact_peer_addr(a).as_slice());
        }
        assert(self.bindings@ =~= before + ip_bindings(ip));
    }

    fn put_values(&mut self, values: &[SocketAddr])
        requires
            old(self).wf(),
        ensures
            final(self).wf(),
            final(self).bindings@ == old(self).bindings@ + value_bindings(values@),
    {
        broadcast use lemma_model;

        let ghost before = self.bindings@;
        if values.len() > 0 {
            let mut items: Vec<BencodeValue> = Vec::new();
            let mut i: usize = 0;
            while i < values.len()
                invariant
                    i <= values.len(),
                    models(items@) == value_items(values@).take(i as int),
                decreases values.len() - i,
            {
                let item = bencode_str(build_compact_peer_addr(values[i]).as_slice());
                let ghost listed = models(items@);
                let ghost value = item@;
                items.push(item);
                i += 1;
                assert(models(items@) =~= listed.push(value));
                assert(models(items@) =~= value_items(values@).take(i as int));
            }
            assert(models(items@) =~= value_items(values@));
            self.put("values", BencodeValue::List(items));
        }
        assert(self.bindings@ =~= before + value_bindings(values@));
    }

    fn finish(self) -> (r: BencodeValue)
        requires
            self.wf(),
        ensures
            r@ == Bencode::Dict(dictionary(self.bindings@)),
    {
        broadcast use lemma_model;

        BencodeValue::Dict(self.dict)
    }
}

fn bencode_str(s: &[u8]) -> (r: BencodeValue)
    ensures
        r@ == Bencode::Bytes(s@),
{
    broadcast use lemma_model;

    BencodeValue::ByteString(vstd::slice::slice_to_vec(s))
}

fn bencode_int(i: i64) -> (r: BencodeValue)
    ensures
        r@ == Bencode::Integer(i as int),
{
    broadcast use lemma_model;

    BencodeValue::Integer(i)
}

fn build_query(t: &[u8], q: QueryMethod, args: DictBuilder) -> (r: Vec<u8>)
    requires
        args.wf(),
    ensures
        r@ == encode(Bencode::Dict(dictionary(query_bindings(t@, q, args.bindings@)))),
{
    let mut d = DictBuilder::new();
    d.put_bytes("t", t);
    d.put_bytes("y", "q".as_bytes());
    d.put_bytes("q", q.as_bytes());
    d.put("a", args.finish());
    assert(d.bindings@ =~= query_bindings(t@, q, args.bindings@));
    BencodeParser::encode(&d.finish())
}

fn build_response(t: &[u8], args: DictBuilder, ip: Option<SocketAddr>) -> (r: Vec<u8>)
    requires
        args.wf(),
    ensures
        r@ == encode(Bencode::Dict(dictionary(response_bindings(t@, args.bindings@, ip)))),
{
    let mut d = DictBuilder::new();
    d.put_bytes("t", t);
    d.put_bytes("y", "r".as_bytes());
    d.put("r", args.finish());
    d.put_ip(ip);
    assert(d.bindings@ =~= response_bindings(t@, args.bindings@, ip));
    BencodeParser::encode(&d.finish())
}

/// Writes a message.
pub fn serialize(message: &Message) -> (r: Vec<u8>)
    ensures
        r@ == message_bytes(message@),
{
    broadcast use lemma_model;

    let mut args = DictBuilder::new();
    match message {
        Message::PingRequest { transaction_id, id } => {
            args.put_bytes("id", id.0.as_slice());
            assert(args.bindings@ =~= argument_bindings(message@.content));
            build_query(transaction_id.as_slice(), QueryMethod::Ping, args)
        },
        Message::PingResponse { transaction_id, id, ip } => {
            args.put_bytes("id", id.0.as_slice());
            assert(args.bindings@ =~= argument_bindings(message@.content));
            build_response(transaction_id.as_slice(), args, *ip)
        },
        Message::FindNodeRequest { transaction_id, id, target, want } => {
            args.put_bytes("id", id.0.as_slice());
            args.put_bytes("target", target.0.as_slice());
            args.put_want(*want);
            assert(args.bindings@ =~= argument_bindings(message@.content));
            build_query(transaction_id.as_slice(), QueryMethod::FindNode, args)
        },
        Message::FindNodeResponse { transaction_id, id, nodes, nodes6, ip } => {
            args.put_bytes("id", id.0.as_slice());
            args.put_some("nodes", nodes.as_slice());
            args.put_some("nodes6", nodes6.as_slice());
            assert(args.bindings@ =~= argument_bindings(message@.content));
            build_response(transaction_id.as_slice(), args, *ip)
        },
        Message::GetPeersRequest { transaction_id, id, info_hash, want } => {
            args.put_bytes("id", id.0.as_slice());
            args.put_bytes("info_hash", info_hash.0.as_slice());
            args.put_want(*want);
            assert(args.bindings@ =~= argument_bindings(message@.content));
            build_query(transaction_id.as_slice(), QueryMethod::GetPeers, args)
        },
        Message::GetPeersResponse { transaction_id, id, token, values, nodes, nodes6, ip } => {
            args.put_bytes("id", id.0.as_slice());
            args.put_bytes("token", token.as_slice());
            args.put_values(values.as_slice());
            args.put_some("nodes", nodes.as_slice());
            args.put_some("nodes6", nodes6.as_slice());
            assert(args.bindings@ =~= argument_bindings(message@.content));
            build_response(transaction_id.as_slice(), args, *ip)
        },
        Message::AnnouncePeerRequest {
            transaction_id,
            id,
            info_hash,
            token,
            port,
            implied_port,
        } => {
            args.put_bytes("id", id.0.as_slice());
            args.put_bytes("info_hash", info_hash.0.as_slice());
            args.put_bytes("token", token.as_slice());
            args.put("port", bencode_int(*port as i64));
            args.put("implied_port", bencode_int(*implied_port as i64));
            assert(args.bindings@ =~= argument_bindings(message@.content));
            build_query(transaction_id.as_slice(), QueryMethod::AnnouncePeer, args)
        },
        Message::AnnouncePeerResponse { transaction_id, id, ip } => {
            args.put_bytes("id", id.0.as_slice());
            assert(args.bindings@ =~= argument_bindings(message@.content));
            build_response(transaction_id.as_slice(), args, *ip)
        },
        Message::Error { transaction_id, code, message: text } => {
            let items: Vec<BencodeValue> = vec![bencode_int(*code as i64), bencode_str(text.as_slice())];
            assert(models(items@) =~= seq![
                Bencode::Integer(*code as int),
                Bencode::Bytes(text@),
            ]);
            args.put_bytes("t", transaction_id.as_slice());
            args.put_bytes("y", "e".as_bytes());
            args.put("e", BencodeValue::List(items));
            assert(args.bindings@ =~= message_bindings(message@));
            BencodeParser::encode(&args.finish())
        },
    }
}

/// The low half word of an integer.
pub open spec fn low_u16(i: int) -> u16 {
    (i % 65536) as u16
}

/// The low word of an integer, read as a signed number.
pub open spec fn low_i32(i: int) -> i32 {
    let m = i % 0x1_0000_0000;
    if m >= 0x8000_0000 {
        (m - 0x1_0000_0000) as i32
    } else {
        m as i32
    }
}

/// The id bound to a key: twenty bytes.
pub open spec fn id_field(e: Seq<(Seq<char>, Bencode)>, key: Seq<char>) -> Option<Seq<u8>> {
    match bytes_field(e, key) {
        Some(b) if b.len() == 20 => Some(b),
        _ => None,
    }
}

/// The bytes bound to a key, by default none.
pub open spec fn bytes_or_empty(e: Seq<(Seq<char>, Bencode)>, key: Seq<char>) -> Seq<u8> {
    match bytes_field(e, key) {
        Some(b) => b,
        None => seq![],
    }
}

/// The families that the arguments of a query want.
pub open spec fn wanted(e: Seq<(Seq<char>, Bencode)>) -> Want {
    match lookup(e, "want"@) {
        Some(Bencode::List(l)) => want_of(l),
        _ => Want::Neither,
    }
}

/// The addresses among the items of a list.
pub open spec fn addresses_in(l: Seq<Bencode>) -> Seq<SocketAddr>
    decreases l.len(),
{
    if l.len() == 0 {
        seq![]
    } else {
        match l.last() {
            Bencode::Bytes(b) => match peer_of(b) {
                Some(a) => addresses_in(l.drop_last()).push(a),
                None => addresses_in(l.drop_last()),
            },
            _ => addresses_in(l.drop_last()),
        }
    }
}

/// The addresses bound to a key.
pub open spec fn addresses_field(e: Seq<(Seq<char>, Bencode)>, key: Seq<char>) -> Seq<SocketAddr> {
    match lookup(e, key) {
        Some(Bencode::List(l)) => addresses_in(l),
        _ => seq![],
    }
}

/// The address that a response says its receiver has.
pub open spec fn ip_field(d: Seq<(Seq<char>, Bencode)>) -> Option<SocketAddr> {
    match bytes_field(d, "ip"@) {
        Some(b) => peer_of(b),
        None => None,
    }
}

/// The integer bound to a key; zero if something else is bound.
pub open spec fn integer_or_zero(e: Seq<(Seq<char>, Bencode)>, key: Seq<char>) -> Option<int> {
    match lookup(e, key) {
        Some(Bencode::Integer(i)) => Some(i),
        Some(_) => Some(0),
        None => None,
    }
}

/// What a query says.
pub open spec fn query_content(
    d: Seq<(Seq<char>, Bencode)>,
    a: Seq<(Seq<char>, Bencode)>,
) -> Option<Content> {
    match (bytes_field(d, "q"@), id_field(a, "id"@)) {
        (Some(q), Some(id)) => match QueryMethod::named(q) {
            Some(QueryMethod::Ping) => Some(Content::Ping { id }),
            Some(QueryMethod::FindNode) => match id_field(a, "target"@) {
                Some(target) => Some(Content::FindNode { id, target, want: wanted(a) }),
                None => None,
            },
            Some(QueryMethod::GetPeers) => match id_field(a, "info_hash"@) {
                Some(info_hash) => Some(Content::GetPeers { id, info_hash, want: wanted(a) }),
                None => None,
            },
            Some(QueryMethod::AnnouncePeer) => match (
                id_field(a, "info_hash"@),
                bytes_field(a, "token"@),
                integer_or_zero(a, "port"@),
                integer_or_zero(a, "implied_port"@),
            ) {
                (Some(info_hash), Some(token), Some(port), Some(implied)) => Some(
                    Content::Announce {
                        id,
                        info_hash,
                        token,
                        port: low_u16(port),
                        implied_port: low_byte(implied),
                    },
                ),
                _ => None,
            },
            None => None,
        },
        _ => None,
    }
}

/// What a response says. What kind of response it is shows in which arguments
/// it has.
pub open spec fn response_content(
    d: Seq<(Seq<char>, Bencode)>,
    r: Seq<(Seq<char>, Bencode)>,
) -> Option<Content> {
    match id_field(r, "id"@) {
        None => None,
        Some(id) => if lookup(r, "token"@) is Some || lookup(r, "values"@) is Some {
            Some(
                Content::GotPeers {
                    id,
                    token: bytes_or_empty(r, "token"@),
                    values: addresses_field(r, "values"@),
                    nodes: bytes_or_empty(r, "nodes"@),
                    nodes6: bytes_or_empty(r, "nodes6"@),
                    ip: ip_field(d),
                },
            )
        } else if lookup(r, "nodes"@) is Some {
            Some(
                Content::FoundNodes {
                    id,
                    nodes: bytes_or_empty(r, "nodes"@),
                    nodes6: bytes_or_empty(r, "nodes6"@),
                    ip: ip_field(d),
                },
            )
        } else {
            Some(Content::Pong { id, ip: ip_field(d) })
        },
    }
}

/// What an error message says.
pub open spec fn error_content(l: Seq<Bencode>) -> Content {
    Content::Error {
        code: if l.len() > 0 {
            match l[0] {
                Bencode::Integer(i) => low_i32(i),
                _ => 0,
            }
        } else {
            0
        },
        message: if l.len() > 1 {
            match l[1] {
                Bencode::Bytes(b) => b,
                _ => seq![],
            }
        } else {
            seq![]
        },
    }
}

/// What the dictionary of a message says.
pub open spec fn content_of(d: Seq<(Seq<char>, Bencode)>, y: Seq<u8>) -> Option<Content> {
    if y == encode_utf8("q"@) {
        match lookup(d, "a"@) {
            Some(Bencode::Dict(a)) => query_content(d, a),
            _ => None,
        }
    } else if y == encode_utf8("r"@) {
        match lookup(d, "r"@) {
            Some(Bencode::Dict(r)) => response_content(d, r),
            _ => None,
        }
    } else if y == encode_utf8("e"@) {
        match lookup(d, "e"@) {
            Some(Bencode::List(l)) => Some(error_content(l)),
            _ => None,
        }
    } else {
        None
    }
}

/// The message that data stands for; nothing if it is not understood.
pub open spec fn message_of(data: Seq<u8>) -> Option<Krpc> {
    match parsed(data) {
        Ok(Bencode::Dict(d)) => match (bytes_field(d, "y"@), bytes_field(d, "t"@)) {
            (Some(y), Some(t)) => match content_of(d, y) {
                Some(c) => Some(Krpc { transaction: t, content: c }),
                None => None,
            },
            _ => None,
        },
        _ => None,
    }
}

fn get_bytes<'a>(d: &'a BencodeDict, key: &str) -> (r: Option<&'a [u8]>)
    ensures
        match r {
            Some(b) => bytes_field(d@, key@) == Some(b@),
            None => bytes_field(d@, key@) is None,
        },
{
    match d.get(key) {
        Some(v) => v.as_bytes(),
        None => None,
    }
}

fn get_copy(d: &BencodeDict, key: &str) -> (r: Vec<u8>)
    ensures
        r@ == bytes_or_empty(d@, key@),
{
    match get_bytes(d, key) {
        Some(b) => vstd::slice::slice_to_vec(b),
        None => {
            let v: Vec<u8> = Vec::new();
            assert(v@ =~= seq![]);
            v
        },
    }
}

fn get_dict<'a>(d: &'a BencodeDict, key: &str) -> (r: Option<&'a BencodeDict>)
    ensures
        match r {
            Some(e) => lookup(d@, key@) == Some(Bencode::Dict(e@)),
            None => !(lookup(d@, key@) matches Some(Bencode::Dict(_))),
        },
{
    match d.get(key) {
        Some(v) => v.as_dict(),
        None => None,
    }
}

fn get_id(d: &BencodeDict, key: &str) -> (r: Option<InfoHash>)
    ensures
        match r {
            Some(h) => id_field(d@, key@) == Some(h@),
            None => id_field(d@, key@) is None,
        },
{
    match get_bytes(d, key) {
        Some(b) => parse_id20(b),
        None => None,
    }
}

/// Reads an id: twenty bytes.
pub fn parse_id20(data: &[u8]) -> (r: Option<InfoHash>)
    ensures
        match r {
            Some(h) => data@.len() == 20 && h@ == data@,
            None => data@.len() != 20,
        },
{
    if data.len() != 20 {
        return None;
    }
    Some(InfoHash(array20(data)))
}

fn get_want(d: &BencodeDict) -> (r: Want)
    ensures
        r == wanted(d@),
{
    match d.get("want") {
        Some(v) => match v.as_list() {
            Some(l) => Want::from_list(l),
            None => Want::Neither,
        },
        None => Want::Neither,
    }
}

fn get_integer_or_zero(d: &BencodeDict, key: &str) -> (r: Option<i64>)
    ensures
        match r {
            Some(i) => integer_or_zero(d@, key@) == Some(i as int),
            None => integer_or_zero(d@, key@) is None,
        },
{
    match d.get(key) {
        Some(v) => match v.as_integer() {
            Some(i) => Some(i),
            None => Some(0),
        },
        None => None,
    }
}

fn get_addresses(d: &BencodeDict, key: &str) -> (r: Vec<SocketAddr>)
    ensures
        r@ == addresses_field(d@, key@),
{
    let mut out: Vec<SocketAddr> = Vec::new();
    assert(out@ =~= seq![]);
    let value = match d.get(key) {
        Some(v) => v,
        None => {
            return out;
        },
    };
    let list = match value.as_list() {
        Some(l) => l,
        None => {
            return out;
        },
    };
    let ghost all = models(list@);
    let mut i: usize = 0;
    assert(all.take(0) =~= seq![]);
    while i < list.len()
        invariant
            i <= list.len(),
            all == models(list@),
            out@ == addresses_in(all.take(i as int)),
        decreases list.len() - i,
    {
        proof {
            let t = all.take(i + 1);
            assert(t.drop_last() =~= all.take(i as int));
            assert(t.last() == list@[i as int]@);
        }
        if let Some(b) = list[i].as_bytes() {
            if let Some(a) = parse_compact_peer_addr(b) {
                out.push(a);
            }
        }
        i += 1;
    }
    assert(all.take(i as int) =~= all);
    out
}

fn truncate_i32(i: i64) -> (r: i32)
    ensures
        r == low_i32(i as int),
{
    let m: u64 = unsigned(i) % 0x1_0000_0000;
    if m >= 0x8000_0000 {
        (m as i64 - 0x1_0000_0000) as i32
    } else {
        m as i32
    }
}

/// The model of an optional message.
pub open spec fn opt_message(m: Option<Message>) -> Option<Krpc> {
    match m {
        Some(x) => Some(x@),
        None => None,
    }
}

fn read_query(d: &BencodeDict, t: Vec<u8>) -> (r: Option<Message>)
    ensures
        opt_message(r) == match lookup(d@, "a"@) {
            Some(Bencode::Dict(a)) => match query_content(d@, a) {
                Some(c) => Some(Krpc { transaction: t@, content: c }),
                None => None,
            },
            _ => None,
        },
{
    let a = match get_dict(d, "a") {
        Some(a) => a,
        None => {
            return None;
        },
    };
    let q = match get_bytes(d, "q") {
        Some(q) => q,
        None => {
            return None;
        },
    };
    let id = match get_id(a, "id") {
        Some(id) => id,
        None => {
            return None;
        },
    };
    match QueryMethod::from_bytes(q) {
        Some(QueryMethod::Ping) => Some(Message::PingRequest { transaction_id: t, id }),
        Some(QueryMethod::FindNode) => match get_id(a, "target") {
            Some(target) => Some(
                Message::FindNodeRequest { transaction_id: t, id, target, want: get_want(a) },
            ),
            None => None,
        },
        Some(QueryMethod::GetPeers) => match get_id(a, "info_hash") {
            Some(info_hash) => Some(
                Message::GetPeersRequest { transaction_id: t, id, info_hash, want: get_want(a) },
            ),
            None => None,
        },
        Some(QueryMethod::AnnouncePeer) => {
            let info_hash = match get_id(a, "info_hash") {
                Some(h) => h,
                None => {
                    return None;
                },
            };
            let token = match get_bytes(a, "token") {
                Some(b) => vstd::slice::slice_to_vec(b),
                None => {
                    return None;
                },
            };
            let port: u16 = match get_integer_or_zero(a, "port") {
                Some(i) => (unsigned(i) % 65536) as u16,
                None => {
                    return None;
                },
            };
            let implied_port: u8 = match get_integer_or_zero(a, "implied_port") {
                Some(i) => (unsigned(i) % 256) as u8,
                None => {
                    return None;
                },
            };
            Some(
                Message::AnnouncePeerRequest {
                    transaction_id: t,
                    id,
                    info_hash,
                    token,
                    port,
                    implied_port,
                },
            )
        },
        None => None,
    }
}

fn read_response(d: &BencodeDict, t: Vec<u8>) -> (r: Option<Message>)
    ensures
        opt_message(r) == match lookup(d@, "r"@) {
            Some(Bencode::Dict(a)) => match response_content(d@, a) {
                Some(c) => Some(Krpc { transaction: t@, content: c }),
                None => None,
            },
            _ => None,
        },
{
    let a = match get_dict(d, "r") {
        Some(a) => a,
        None => {
            return None;
        },
    };
    let id = match get_id(a, "id") {
        Some(id) => id,
        None => {
            return None;
        },
    };
    let ip: Option<SocketAddr> = match get_bytes(d, "ip") {
        Some(b) => parse_compact_peer_addr(b),
        None => None,
    };
    if a.contains_key("token") || a.contains_key("values") {
        Some(
            Message::GetPeersResponse {
                transaction_id: t,
                id,
                token: get_copy(a, "token"),
                values: get_addresses(a, "values"),
                nodes: get_copy(a, "nodes"),
                nodes6: get_copy(a, "nodes6"),
                ip,
            },
        )
    } else if a.contains_key("nodes") {
        Some(
            Message::FindNodeResponse {
                transaction_id: t,
                id,
                nodes: get_copy(a, "nodes"),
                nodes6: get_copy(a, "nodes6"),
                ip,
            },
        )
    } else {
        Some(Message::PingResponse { transaction_id: t, id, ip })
    }
}

fn read_error(d: &BencodeDict, t: Vec<u8>) -> (r: Option<Message>)
    ensures
        opt_message(r) == match lookup(d@, "e"@) {
            Some(Bencode::List(l)) => Some(
                Krpc { transaction: t@, content: error_content(l) },
            ),
            _ => None,
        },
{
    let value = match d.get("e") {
        Some(v) => v,
        None => {
            return None;
        },
    };
    let list = match value.as_list() {
        Some(l) => l,
        None => {
            return None;
        },
    };
    let code: i32 = if list.len() > 0 {
        match list[0].as_integer() {
            Some(i) => truncate_i32(i),
            None => 0,
        }
    } else {
        0
    };
    let empty: Vec<u8> = Vec::new();
    assert(empty@ =~= seq![]);
    let message: Vec<u8> = if list.len() > 1 {
        match list[1].as_bytes() {
            Some(b) => vstd::slice::slice_to_vec(b),
            None => empty,
        }
    } else {
        empty
    };
    Some(Message::Error { transaction_id: t, code, message })
}

/// Reads a message.
pub fn deserialize(data: &[u8]) -> (r: Option<Message>)
    ensures
        opt_message(r) == message_of(data@),
{
    let value = match BencodeParser::parse(data) {
        Ok(v) => v,
        Err(_) => {
            return None;
        },
    };
    let d = match value.as_dict() {
        Some(d) => d,
        None => {
            return None;
        },
    };
    let y = match get_bytes(d, "y") {
        Some(y) => y,
        None => {
            return None;
        },
    };
    let t = match get_bytes(d, "t") {
        Some(t) => vstd::slice::slice_to_vec(t),
        None => {
            return None;
        },
    };
    if bytes_equal(y, "q".as_bytes()) {
        read_query(d, t)
    } else if bytes_equal(y, "r".as_bytes()) {
        read_response(d, t)
    } else if bytes_equal(y, "e".as_bytes()) {
        read_error(d, t)
    } else {
        None
    }
}

} // verus!

//! What messages with dictionaries say.

use crate::bencode::grammar::{encode, parsed, Fault};
use crate::bencode::laws::parseable;
use crate::bencode::{Bencode, MAX_PARSE_DEPTH};
use crate::dht::protocol::{addresses_in, message_of, Content, Krpc, Want};
use crate::laws::wire::lists_peers;
use crate::laws::{
    binds, lemma_binds, lemma_writes_v4, lemma_writes_v6, unbound, writes_addr, writes_v4,
};
use crate::net::{compact_v4, SocketAddr, SocketAddrV4};
use crate::peer::extension::{exchanged_peers, extension_ids, metadata_message, peers_in};
use crate::peer::laws::law_metadata_understood;
use vstd::prelude::*;
use vstd::utf8::encode_utf8;

verus! {

/// A peer gives its numbers for peer exchange and metadata exchange in the map
/// of its extended handshake.
pub proof fn law_numbers_read(
    payload: Seq<u8>,
    e: Seq<(Seq<char>, Bencode)>,
    m: Seq<(Seq<char>, Bencode)>,
    pex: u8,
    metadata: u8,
)
    requires
        parsed(payload) == Ok::<Bencode, Fault>(Bencode::Dict(e)),
        binds(e, "m"@, Bencode::Dict(m)),
    ensures
        binds(m, "ut_pex"@, Bencode::Integer(pex as int)) ==> extension_ids(payload).0 == Some(pex),
        binds(m, "ut_metadata"@, Bencode::Integer(metadata as int)) ==> extension_ids(payload).1
            == Some(metadata),
        unbound(m, "ut_pex"@) ==> extension_ids(payload).0 is None,
        unbound(m, "ut_metadata"@) ==> extension_ids(payload).1 is None,
{
    lemma_binds(e, "m"@, Bencode::Dict(m));
    lemma_binds(m, "ut_pex"@, Bencode::Integer(pex as int));
    lemma_binds(m, "ut_metadata"@, Bencode::Integer(metadata as int));
}

/// A message about metadata says what it is, which piece it is about and how
/// long all pieces are together, and has the data behind its dictionary.
pub proof fn law_metadata_fields(
    e: Seq<(Seq<char>, Bencode)>,
    rest: Seq<u8>,
    kind: u8,
    piece: u32,
    total: u32,
)
    requires
        parseable(Bencode::Dict(e), MAX_PARSE_DEPTH as int),
        binds(e, "msg_type"@, Bencode::Integer(kind as int)),
        binds(e, "piece"@, Bencode::Integer(piece as int)),
        kind == 1 ==> binds(e, "total_size"@, Bencode::Integer(total as int)),
    ensures
        metadata_message(encode(Bencode::Dict(e)) + rest) == (
            kind,
            piece as usize,
            if kind == 1 {
                total as usize
            } else {
                0
            },
            rest,
        ),
{
    law_metadata_understood(e, rest);
    lemma_binds(e, "msg_type"@, Bencode::Integer(kind as int));
    lemma_binds(e, "piece"@, Bencode::Integer(piece as int));
    lemma_binds(e, "total_size"@, Bencode::Integer(total as int));
}

proof fn lemma_peers_in(bytes: Seq<u8>, peers: Seq<SocketAddrV4>, n: int)
    requires
        0 <= n <= peers.len(),
        6 * peers.len() <= bytes.len(),
        forall|i: int| 0 <= i < peers.len() ==> writes_v4(bytes, 0 + 6 * i, #[trigger] peers[i]),
        forall|i: int| 0 <= i < peers.len() ==> (#[trigger] peers[i]).port > 0,
    ensures
        peers_in(bytes, n) == peers.take(n),
    decreases n,
{
    if n > 0 {
        lemma_peers_in(bytes, peers, n - 1);
        assert(writes_v4(bytes, 0 + 6 * (n - 1), peers[n - 1]));
        lemma_writes_v4(bytes, 6 * (n - 1), peers[n - 1]);
        assert(compact_v4(bytes.subrange(6 * (n - 1), 6 * n)) == peers[n - 1]);
        assert(peers.take(n - 1).push(peers[n - 1]) =~= peers.take(n));
    } else {
        assert(peers.take(0) =~= seq![]);
    }
}

/// The peers that a peer tells about are those that its message adds, six bytes
/// each; what it drops is told apart.
pub proof fn law_peers_read(
    payload: Seq<u8>,
    e: Seq<(Seq<char>, Bencode)>,
    added: Seq<u8>,
    peers: Seq<SocketAddrV4>,
    dropped: Seq<u8>,
    gone: Seq<SocketAddrV4>,
)
    requires
        parsed(payload) == Ok::<Bencode, Fault>(Bencode::Dict(e)),
        binds(e, "added"@, Bencode::Bytes(added)),
        added.len() == 6 * peers.len(),
        lists_peers(added, 0, peers.len() as int, peers),
        forall|i: int| 0 <= i < peers.len() ==> (#[trigger] peers[i]).port > 0,
        binds(e, "dropped"@, Bencode::Bytes(dropped)),
        dropped.len() == 6 * gone.len(),
        lists_peers(dropped, 0, gone.len() as int, gone),
        forall|i: int| 0 <= i < gone.len() ==> (#[trigger] gone[i]).port > 0,
    ensures
        exchanged_peers(payload) == (peers, gone),
{
    lemma_binds(e, "added"@, Bencode::Bytes(added));
    lemma_binds(e, "dropped"@, Bencode::Bytes(dropped));
    lemma_peers_in(added, peers, peers.len() as int);
    lemma_peers_in(dropped, gone, gone.len() as int);
    assert(peers.take(peers.len() as int) =~= peers);
    assert(gone.take(gone.len() as int) =~= gone);
}

/// Data is a message of the DHT of one sort: it has a transaction, and a
/// dictionary that says the rest.
pub open spec fn has_form(
    data: Seq<u8>,
    d: Seq<(Seq<char>, Bencode)>,
    t: Seq<u8>,
    sort: Seq<char>,
    a: Seq<(Seq<char>, Bencode)>,
) -> bool {
    &&& parsed(data) == Ok::<Bencode, Fault>(Bencode::Dict(d))
    &&& binds(d, "t"@, Bencode::Bytes(t))
    &&& binds(d, "y"@, Bencode::Bytes(encode_utf8(sort)))
    &&& binds(
        d,
        if sort == "q"@ {
            "a"@
        } else {
            "r"@
        },
        Bencode::Dict(a),
    )
}

proof fn lemma_form(
    data: Seq<u8>,
    d: Seq<(Seq<char>, Bencode)>,
    t: Seq<u8>,
    sort: Seq<char>,
    a: Seq<(Seq<char>, Bencode)>,
)
    requires
        has_form(data, d, t, sort, a),
    ensures
        crate::metainfo::bytes_field(d, "t"@) == Some(t),
        crate::metainfo::bytes_field(d, "y"@) == Some(encode_utf8(sort)),
        sort == "q"@ ==> crate::bencode::lookup(d, "a"@) == Some(Bencode::Dict(a)),
        sort == "r"@ ==> crate::bencode::lookup(d, "r"@) == Some(Bencode::Dict(a)),
{
    lemma_binds(d, "t"@, Bencode::Bytes(t));
    lemma_binds(d, "y"@, Bencode::Bytes(encode_utf8(sort)));
    lemma_binds(d, "a"@, Bencode::Dict(a));
    lemma_binds(d, "r"@, Bencode::Dict(a));
    if sort == "r"@ {
        reveal_strlit("q");
        reveal_strlit("r");
        assert("q"@[0] != "r"@[0]);
    }
}

/// Different texts have different names.
proof fn lemma_names(a: Seq<char>, b: Seq<char>)
    requires
        a != b,
    ensures
        encode_utf8(a) != encode_utf8(b),
{
    if encode_utf8(a) == encode_utf8(b) {
        crate::text::lemma_encode_injective(a, b);
    }
}

proof fn lemma_query_names()
    ensures
        encode_utf8("find_node"@) != encode_utf8("ping"@),
        encode_utf8("get_peers"@) != encode_utf8("ping"@),
        encode_utf8("announce_peer"@) != encode_utf8("ping"@),
        encode_utf8("get_peers"@) != encode_utf8("find_node"@),
        encode_utf8("announce_peer"@) != encode_utf8("find_node"@),
        encode_utf8("announce_peer"@) != encode_utf8("get_peers"@),
        encode_utf8("r"@) != encode_utf8("q"@),
        encode_utf8("e"@) != encode_utf8("q"@),
        encode_utf8("e"@) != encode_utf8("r"@),
{
    reveal_strlit("ping");
    reveal_strlit("find_node");
    reveal_strlit("get_peers");
    reveal_strlit("announce_peer");
    reveal_strlit("q");
    reveal_strlit("r");
    reveal_strlit("e");
    assert("find_node"@[0] != "ping"@[0]);
    assert("get_peers"@[0] != "ping"@[0]);
    assert("announce_peer"@[0] != "ping"@[0]);
    assert("get_peers"@[0] != "find_node"@[0]);
    assert("announce_peer"@[0] != "find_node"@[0]);
    assert("announce_peer"@[0] != "get_peers"@[0]);
    assert("r"@[0] != "q"@[0] && "e"@[0] != "q"@[0] && "e"@[0] != "r"@[0]);
    lemma_names("find_node"@, "ping"@);
    lemma_names("get_peers"@, "ping"@);
    lemma_names("announce_peer"@, "ping"@);
    lemma_names("get_peers"@, "find_node"@);
    lemma_names("announce_peer"@, "find_node"@);
    lemma_names("announce_peer"@, "get_peers"@);
    lemma_names("r"@, "q"@);
    lemma_names("e"@, "q"@);
    lemma_names("e"@, "r"@);
}

/// A question is read with its name, its sender and what it is about.
pub proof fn law_query_read(
    data: Seq<u8>,
    d: Seq<(Seq<char>, Bencode)>,
    t: Seq<u8>,
    a: Seq<(Seq<char>, Bencode)>,
    id: Seq<u8>,
    hash: Seq<u8>,
    token: Seq<u8>,
    port: u16,
    implied: u8,
)
    requires
        has_form(data, d, t, "q"@, a),
        binds(a, "id"@, Bencode::Bytes(id)),
        id.len() == 20,
        hash.len() == 20,
        unbound(a, "want"@),
    ensures
        binds(d, "q"@, Bencode::Bytes(encode_utf8("ping"@))) ==> message_of(data) == Some(
            Krpc { transaction: t, content: Content::Ping { id } },
        ),
        binds(d, "q"@, Bencode::Bytes(encode_utf8("find_node"@))) && binds(
            a,
            "target"@,
            Bencode::Bytes(hash),
        ) ==> message_of(data) == Some(
            Krpc {
                transaction: t,
                content: Content::FindNode { id, target: hash, want: Want::Neither },
            },
        ),
        binds(d, "q"@, Bencode::Bytes(encode_utf8("get_peers"@))) && binds(
            a,
            "info_hash"@,
            Bencode::Bytes(hash),
        ) ==> message_of(data) == Some(
            Krpc {
                transaction: t,
                content: Content::GetPeers { id, info_hash: hash, want: Want::Neither },
            },
        ),
        binds(d, "q"@, Bencode::Bytes(encode_utf8("announce_peer"@))) && binds(
            a,
            "info_hash"@,
            Bencode::Bytes(hash),
        ) && binds(a, "token"@, Bencode::Bytes(token)) && binds(
            a,
            "port"@,
            Bencode::Integer(port as int),
        ) && binds(a, "implied_port"@, Bencode::Integer(implied as int)) ==> message_of(data)
            == Some(
            Krpc {
                transaction: t,
                content: Content::Announce {
                    id,
                    info_hash: hash,
                    token,
                    port,
                    implied_port: implied,
                },
            },
        ),
{
    lemma_form(data, d, t, "q"@, a);
    lemma_query_names();
    lemma_binds(a, "id"@, Bencode::Bytes(id));
    lemma_binds(a, "target"@, Bencode::Bytes(hash));
    lemma_binds(a, "info_hash"@, Bencode::Bytes(hash));
    lemma_binds(a, "token"@, Bencode::Bytes(token));
    lemma_binds(a, "port"@, Bencode::Integer(port as int));
    lemma_binds(a, "implied_port"@, Bencode::Integer(implied as int));
    lemma_binds(a, "want"@, Bencode::Integer(0));
    lemma_binds(d, "q"@, Bencode::Bytes(encode_utf8("ping"@)));
    lemma_binds(d, "q"@, Bencode::Bytes(encode_utf8("find_node"@)));
    lemma_binds(d, "q"@, Bencode::Bytes(encode_utf8("get_peers"@)));
    lemma_binds(d, "q"@, Bencode::Bytes(encode_utf8("announce_peer"@)));
}

/// An answer without a token or peers is one about nodes if it lists some, and
/// else says only who answers.
pub proof fn law_answer_read(
    data: Seq<u8>,
    d: Seq<(Seq<char>, Bencode)>,
    t: Seq<u8>,
    r: Seq<(Seq<char>, Bencode)>,
    id: Seq<u8>,
    nodes: Seq<u8>,
    nodes6: Seq<u8>,
)
    requires
        has_form(data, d, t, "r"@, r),
        binds(r, "id"@, Bencode::Bytes(id)),
        id.len() == 20,
        unbound(r, "token"@),
        unbound(r, "values"@),
        unbound(d, "ip"@),
    ensures
        unbound(r, "nodes"@) ==> message_of(data) == Some(
            Krpc { transaction: t, content: Content::Pong { id, ip: None } },
        ),
        binds(r, "nodes"@, Bencode::Bytes(nodes)) && binds(r, "nodes6"@, Bencode::Bytes(nodes6))
            ==> message_of(data) == Some(
            Krpc { transaction: t, content: Content::FoundNodes { id, nodes, nodes6, ip: None } },
        ),
{
    lemma_form(data, d, t, "r"@, r);
    lemma_query_names();
    lemma_binds(r, "id"@, Bencode::Bytes(id));
    lemma_binds(r, "token"@, Bencode::Integer(0));
    lemma_binds(r, "values"@, Bencode::Integer(0));
    lemma_binds(d, "ip"@, Bencode::Integer(0));
    lemma_binds(r, "nodes"@, Bencode::Bytes(nodes));
    lemma_binds(r, "nodes6"@, Bencode::Bytes(nodes6));
}

/// Items that list addresses: each of them the address and the port, in six
/// bytes or in eighteen.
pub open spec fn lists_addresses(l: Seq<Bencode>, addrs: Seq<SocketAddr>) -> bool {
    &&& l.len() == addrs.len()
    &&& forall|i: int| 0 <= i < l.len() ==> is_address(#[trigger] l[i], addrs[i])
}

/// An item is an address.
pub open spec fn is_address(v: Bencode, a: SocketAddr) -> bool {
    v matches Bencode::Bytes(b) && writes_addr(b, 0, a) && b.len() == if a is V4 {
        6int
    } else {
        18
    }
}

proof fn lemma_is_address(b: Seq<u8>, a: SocketAddr)
    requires
        is_address(Bencode::Bytes(b), a),
    ensures
        crate::dht::compact::peer_of(b) == Some(a),
{
    match a {
        SocketAddr::V4(v) => {
            lemma_writes_v4(b, 0, v);
            assert(b.subrange(0, 6) =~= b);
        },
        SocketAddr::V6(v) => {
            lemma_writes_v6(b, 0, v);
            assert(b.subrange(0, 18) =~= b);
        },
    }
}

proof fn lemma_addresses_in(l: Seq<Bencode>, addrs: Seq<SocketAddr>)
    requires
        lists_addresses(l, addrs),
    ensures
        addresses_in(l) == addrs,
    decreases l.len(),
{
    if l.len() > 0 {
        let n = l.len() - 1;
        assert(is_address(l[n], addrs[n]));
        lemma_is_address(l[n]->Bytes_0, addrs[n]);
        assert forall|i: int| 0 <= i < l.drop_last().len() implies is_address(
            #[trigger] l.drop_last()[i],
            addrs.drop_last()[i],
        ) by {
            assert(is_address(l[i], addrs[i]));
        }
        lemma_addresses_in(l.drop_last(), addrs.drop_last());
        assert(addrs.drop_last().push(addrs[n]) =~= addrs);
    } else {
        assert(addrs =~= seq![]);
    }
}

/// An answer about peers has the token for an announcement, the peers, and the
/// nodes that may know more; and it may say under which address it sees the one
/// who asked.
pub proof fn law_peers_answer_read(
    data: Seq<u8>,
    d: Seq<(Seq<char>, Bencode)>,
    t: Seq<u8>,
    r: Seq<(Seq<char>, Bencode)>,
    id: Seq<u8>,
    token: Seq<u8>,
    l: Seq<Bencode>,
    addrs: Seq<SocketAddr>,
    nodes: Seq<u8>,
    nodes6: Seq<u8>,
    ip: Seq<u8>,
    seen: SocketAddr,
)
    requires
        has_form(data, d, t, "r"@, r),
        binds(r, "id"@, Bencode::Bytes(id)),
        id.len() == 20,
        binds(r, "token"@, Bencode::Bytes(token)),
        binds(r, "values"@, Bencode::List(l)),
        lists_addresses(l, addrs),
        binds(r, "nodes"@, Bencode::Bytes(nodes)),
        binds(r, "nodes6"@, Bencode::Bytes(nodes6)),
        binds(d, "ip"@, Bencode::Bytes(ip)),
        is_address(Bencode::Bytes(ip), seen),
    ensures
        message_of(data) == Some(
            Krpc {
                transaction: t,
                content: Content::GotPeers {
                    id,
                    token,
                    values: addrs,
                    nodes,
                    nodes6,
                    ip: Some(seen),
                },
            },
        ),
{
    lemma_form(data, d, t, "r"@, r);
    lemma_query_names();
    lemma_binds(r, "id"@, Bencode::Bytes(id));
    lemma_binds(r, "token"@, Bencode::Bytes(token));
    lemma_binds(r, "values"@, Bencode::List(l));
    lemma_addresses_in(l, addrs);
    lemma_binds(d, "ip"@, Bencode::Bytes(ip));
    lemma_is_address(ip, seen);
    lemma_binds(r, "nodes"@, Bencode::Bytes(nodes));
    lemma_binds(r, "nodes6"@, Bencode::Bytes(nodes6));
}

/// An error has a number and a text.
pub proof fn law_error_read(
    data: Seq<u8>,
    d: Seq<(Seq<char>, Bencode)>,
    t: Seq<u8>,
    code: i32,
    message: Seq<u8>,
)
    requires
        parsed(data) == Ok::<Bencode, Fault>(Bencode::Dict(d)),
        binds(d, "t"@, Bencode::Bytes(t)),
        binds(d, "y"@, Bencode::Bytes(encode_utf8("e"@))),
        binds(
            d,
            "e"@,
            Bencode::List(seq![Bencode::Integer(code as int), Bencode::Bytes(message)]),
        ),
    ensures
        message_of(data) == Some(Krpc { transaction: t, content: Content::Error { code, message } }),
{
    let l = seq![Bencode::Integer(code as int), Bencode::Bytes(message)];
    lemma_query_names();
    lemma_binds(d, "t"@, Bencode::Bytes(t));
    lemma_binds(d, "y"@, Bencode::Bytes(encode_utf8("e"@)));
    lemma_binds(d, "e"@, Bencode::List(l));
    assert(l[0] == Bencode::Integer(code as int) && l[1] == Bencode::Bytes(message));
}

/// A question says that nodes of both families are wanted by naming both.
pub proof fn law_want_read(l: Seq<Bencode>)
    ensures
        crate::dht::protocol::want_of(l) == Want::V4 <==> l.contains(
            Bencode::Bytes(encode_utf8("n4"@)),
        ) && !l.contains(Bencode::Bytes(encode_utf8("n6"@))),
        crate::dht::protocol::want_of(l) == Want::V6 <==> l.contains(
            Bencode::Bytes(encode_utf8("n6"@)),
        ) && !l.contains(Bencode::Bytes(encode_utf8("n4"@))),
        crate::dht::protocol::want_of(l) == Want::Both <==> l.contains(
            Bencode::Bytes(encode_utf8("n4"@)),
        ) && l.contains(Bencode::Bytes(encode_utf8("n6"@))),
{
}

} // verus!

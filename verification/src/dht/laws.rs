//! What holds between writing and reading DHT messages.

use crate::bencode::laws::{law_parse_encode, lemma_dictionary_parseable, machine_sized, nests_within, parseable};
use crate::bencode::{
    dictionary, lemma_dictionary_push, lemma_dictionary_sorted, lemma_inserted_lookup, lookup, well_formed, Bencode,
};
use crate::dht::compact::{compact_peer, law_compact_peer};
use crate::dht::protocol::{
    addresses_in, argument_bindings, binds, binds_some, content_of, ip_bindings, message_bindings, message_bytes,
    message_of, query_bindings, response_bindings, value_bindings, value_items, want_bindings, want_items, want_of,
    Content, Krpc, QueryMethod, Want,
};
use crate::net::SocketAddr;
use vstd::prelude::*;
use vstd::utf8::encode_utf8;

verus! {

/// The bytes of a key fit the machine.
#[verifier::opaque]
pub open spec fn short(key: Seq<char>) -> bool {
    encode_utf8(key).len() <= usize::MAX
}

/// Bindings that can be written and read within `levels` of nesting.
#[verifier::opaque]
pub open spec fn readable(s: Seq<(Seq<char>, Bencode)>, levels: int) -> bool {
    forall|i: int|
        0 <= i < s.len() ==> parseable((#[trigger] s[i]).1, levels) && short(s[i].0)
}

/// A short ASCII key.
proof fn lemma_key_size(key: Seq<char>)
    requires
        vstd::utf8::is_ascii_chars(key),
        key.len() <= 100,
    ensures
        short(key),
{
    reveal(short);
    vstd::utf8::is_ascii_chars_encode_utf8(key);
}

proof fn lemma_keys()
    ensures
        short("t"@),
        short("y"@),
        short("q"@),
        short("a"@),
        short("r"@),
        short("e"@),
        short("ip"@),
        short("id"@),
        short("target"@),
        short("want"@),
        short("info_hash"@),
        short("token"@),
        short("port"@),
        short("implied_port"@),
        short("nodes"@),
        short("nodes6"@),
        short("values"@),
        short("n4"@),
        short("n6"@),
        short("ping"@),
        short("find_node"@),
        short("get_peers"@),
        short("announce_peer"@),
{
    reveal_strlit("t");
    reveal_strlit("y");
    reveal_strlit("q");
    reveal_strlit("a");
    reveal_strlit("r");
    reveal_strlit("e");
    reveal_strlit("ip");
    reveal_strlit("id");
    reveal_strlit("target");
    reveal_strlit("want");
    reveal_strlit("info_hash");
    reveal_strlit("token");
    reveal_strlit("port");
    reveal_strlit("implied_port");
    reveal_strlit("nodes");
    reveal_strlit("nodes6");
    reveal_strlit("values");
    reveal_strlit("n4");
    reveal_strlit("n6");
    reveal_strlit("ping");
    reveal_strlit("find_node");
    reveal_strlit("get_peers");
    reveal_strlit("announce_peer");
    lemma_key_size("t"@);
    lemma_key_size("y"@);
    lemma_key_size("q"@);
    lemma_key_size("a"@);
    lemma_key_size("r"@);
    lemma_key_size("e"@);
    lemma_key_size("ip"@);
    lemma_key_size("id"@);
    lemma_key_size("target"@);
    lemma_key_size("want"@);
    lemma_key_size("info_hash"@);
    lemma_key_size("token"@);
    lemma_key_size("port"@);
    lemma_key_size("implied_port"@);
    lemma_key_size("nodes"@);
    lemma_key_size("nodes6"@);
    lemma_key_size("values"@);
    lemma_key_size("n4"@);
    lemma_key_size("n6"@);
    lemma_key_size("ping"@);
    lemma_key_size("find_node"@);
    lemma_key_size("get_peers"@);
    lemma_key_size("announce_peer"@);
}

/// The keys of one dictionary are different.
proof fn lemma_keys_differ()
    ensures
        "t"@ != "y"@ && "t"@ != "q"@ && "t"@ != "a"@ && "t"@ != "r"@ && "t"@ != "e"@ && "t"@
            != "ip"@,
        "y"@ != "q"@ && "y"@ != "a"@ && "y"@ != "r"@ && "y"@ != "e"@ && "y"@ != "ip"@,
        "q"@ != "a"@ && "q"@ != "r"@ && "q"@ != "e"@ && "r"@ != "ip"@,
        "id"@ != "target"@ && "id"@ != "want"@ && "id"@ != "info_hash"@ && "id"@ != "token"@
            && "id"@ != "port"@ && "id"@ != "implied_port"@ && "id"@ != "nodes"@ && "id"@
            != "nodes6"@ && "id"@ != "values"@,
        "target"@ != "want"@ && "info_hash"@ != "want"@,
        "info_hash"@ != "token"@ && "info_hash"@ != "port"@ && "info_hash"@ != "implied_port"@,
        "token"@ != "port"@ && "token"@ != "implied_port"@ && "port"@ != "implied_port"@,
        "token"@ != "values"@ && "token"@ != "nodes"@ && "token"@ != "nodes6"@,
        "values"@ != "nodes"@ && "values"@ != "nodes6"@ && "nodes"@ != "nodes6"@,
        "n4"@ != "n6"@,
        "q"@ != "r"@ && "q"@ != "e"@ && "r"@ != "e"@,
        "ping"@ != "find_node"@ && "ping"@ != "get_peers"@ && "ping"@ != "announce_peer"@,
        "find_node"@ != "get_peers"@ && "find_node"@ != "announce_peer"@ && "get_peers"@
            != "announce_peer"@,
{
    reveal_strlit("t");
    reveal_strlit("y");
    reveal_strlit("q");
    reveal_strlit("a");
    reveal_strlit("r");
    reveal_strlit("e");
    reveal_strlit("ip");
    reveal_strlit("id");
    reveal_strlit("target");
    reveal_strlit("want");
    reveal_strlit("info_hash");
    reveal_strlit("token");
    reveal_strlit("port");
    reveal_strlit("implied_port");
    reveal_strlit("nodes");
    reveal_strlit("nodes6");
    reveal_strlit("values");
    reveal_strlit("n4");
    reveal_strlit("n6");
    reveal_strlit("ping");
    reveal_strlit("find_node");
    reveal_strlit("get_peers");
    reveal_strlit("announce_peer");
    assert("t"@[0] == 't' && "y"@[0] == 'y' && "q"@[0] == 'q' && "a"@[0] == 'a' && "r"@[0] == 'r'
        && "e"@[0] == 'e');
    assert("t"@.len() == 1 && "ip"@.len() == 2 && "y"@.len() == 1 && "r"@.len() == 1);
    assert("id"@.len() == 2 && "target"@.len() == 6 && "want"@.len() == 4 && "info_hash"@.len() == 9
        && "token"@.len() == 5 && "port"@.len() == 4 && "implied_port"@.len() == 12 && "nodes"@.len()
        == 5 && "nodes6"@.len() == 6 && "values"@.len() == 6);
    assert("token"@[0] == 't' && "nodes"@[0] == 'n' && "values"@[0] == 'v' && "nodes6"@[0] == 'n');
    assert("n4"@[1] == '4' && "n6"@[1] == '6');
    assert("ping"@.len() == 4 && "find_node"@.len() == 9 && "get_peers"@.len() == 9
        && "announce_peer"@.len() == 13);
    assert("find_node"@[0] == 'f' && "get_peers"@[0] == 'g');
}

/// Different texts have different bytes.
proof fn lemma_bytes_differ(a: Seq<char>, b: Seq<char>)
    requires
        a != b,
    ensures
        encode_utf8(a) != encode_utf8(b),
{
    if encode_utf8(a) == encode_utf8(b) {
        crate::text::lemma_encode_injective(a, b);
    }
}

/// One more binding decides about its key and no other.
proof fn lemma_push_lookup(
    a: Seq<(Seq<char>, Bencode)>,
    k: Seq<char>,
    v: Bencode,
    key: Seq<char>,
)
    ensures
        lookup(dictionary(a.push((k, v))), key) == if key == k {
            Some(v)
        } else {
            lookup(dictionary(a), key)
        },
{
    lemma_dictionary_push(a, k, v);
    lemma_dictionary_sorted(a);
    lemma_inserted_lookup(dictionary(a), k, v, key);
}

proof fn lemma_one_lookup(k: Seq<char>, v: Bencode, key: Seq<char>)
    ensures
        lookup(dictionary(seq![(k, v)]), key) == if key == k {
            Some(v)
        } else {
            None::<Bencode>
        },
{
    let e = Seq::<(Seq<char>, Bencode)>::empty();
    lemma_push_lookup(e, k, v, key);
    assert(seq![(k, v)] =~= e.push((k, v)));
    assert(dictionary(e) =~= seq![]);
}

/// A run of zero or one binding decides about its key and no other.
proof fn lemma_optional_lookup(
    a: Seq<(Seq<char>, Bencode)>,
    b: Seq<(Seq<char>, Bencode)>,
    key: Seq<char>,
)
    requires
        b.len() <= 1,
    ensures
        lookup(dictionary(a + b), key) == if b.len() == 1 && b[0].0 == key {
            Some(b[0].1)
        } else {
            lookup(dictionary(a), key)
        },
{
    if b.len() == 0 {
        assert(a + b =~= a);
    } else {
        lemma_push_lookup(a, b[0].0, b[0].1, key);
        assert(a + b =~= a.push((b[0].0, b[0].1)));
    }
}

/// What a receiver makes of a message. Responses do not tell their kind: a
/// response to an announcement, and one without nodes, are read as a response
/// to a ping.
pub open spec fn as_received(c: Content) -> Content {
    match c {
        Content::Announced { id, ip } => Content::Pong { id, ip },
        Content::FoundNodes { id, nodes, nodes6, ip } => if nodes.len() == 0 {
            Content::Pong { id, ip }
        } else {
            c
        },
        _ => c,
    }
}

/// Ids have twenty bytes, and lengths fit the machine.
pub open spec fn sized(m: Krpc) -> bool {
    &&& m.transaction.len() <= usize::MAX
    &&& match m.content {
        Content::Ping { id } => id.len() == 20,
        Content::Pong { id, ip } => id.len() == 20,
        Content::Announced { id, ip } => id.len() == 20,
        Content::FindNode { id, target, want } => id.len() == 20 && target.len() == 20,
        Content::FoundNodes { id, nodes, nodes6, ip } => id.len() == 20 && nodes.len()
            <= usize::MAX && nodes6.len() <= usize::MAX,
        Content::GetPeers { id, info_hash, want } => id.len() == 20 && info_hash.len() == 20,
        Content::GotPeers { id, token, values, nodes, nodes6, ip } => id.len() == 20 && token.len()
            <= usize::MAX && nodes.len() <= usize::MAX && nodes6.len() <= usize::MAX,
        Content::Announce { id, info_hash, token, port, implied_port } => id.len() == 20
            && info_hash.len() == 20 && token.len() <= usize::MAX,
        Content::Error { code, message } => message.len() <= usize::MAX,
    }
}

proof fn lemma_bytes_parseable(b: Seq<u8>, levels: int)
    requires
        b.len() <= usize::MAX,
        levels >= 0,
    ensures
        parseable(Bencode::Bytes(b), levels),
{
}

proof fn lemma_list_parseable(l: Seq<Bencode>, levels: int)
    requires
        levels > 0,
        forall|i: int|
            0 <= i < l.len() ==> match #[trigger] l[i] {
                Bencode::Bytes(b) => b.len() <= usize::MAX,
                Bencode::Integer(n) => i64::MIN <= n <= i64::MAX,
                _ => false,
            },
    ensures
        parseable(Bencode::List(l), levels),
{
    let b = Bencode::List(l);
    assert forall|i: int| 0 <= i < l.len() implies well_formed(#[trigger] l[i]) && machine_sized(
        l[i],
    ) && nests_within(l[i], levels - 1) by {}
}

proof fn lemma_want(w: Want)
    ensures
        want_of(want_items(w)) == w,
        parseable(Bencode::List(want_items(w)), 126),
{
    lemma_keys();
    lemma_keys_differ();
    lemma_bytes_differ("n4"@, "n6"@);
    let n4 = Bencode::Bytes(encode_utf8("n4"@));
    let n6 = Bencode::Bytes(encode_utf8("n6"@));
    let l = want_items(w);
    reveal(short);
    lemma_list_parseable(l, 126);
    match w {
        Want::V4 => {
            assert(l[0] == n4);
        },
        Want::V6 => {
            assert(l[0] == n6);
        },
        Want::Both => {
            assert(l[0] == n4 && l[1] == n6);
        },
        Want::Neither => {},
    }
}

proof fn lemma_values(values: Seq<SocketAddr>)
    ensures
        addresses_in(value_items(values)) == values,
        parseable(Bencode::List(value_items(values)), 126),
    decreases values.len(),
{
    assert forall|i: int| 0 <= i < value_items(values).len() implies match #[trigger] value_items(
        values,
    )[i] {
        Bencode::Bytes(b) => b.len() <= usize::MAX,
        Bencode::Integer(n) => i64::MIN <= n <= i64::MAX,
        _ => false,
    } by {
        law_compact_peer(values[i]);
    }
    lemma_list_parseable(value_items(values), 126);
    if values.len() > 0 {
        lemma_values(values.drop_last());
        law_compact_peer(values.last());
        assert(value_items(values).drop_last() =~= value_items(values.drop_last()));
        assert(values =~= values.drop_last().push(values.last()));
    } else {
        assert(values =~= seq![]);
    }
}

/// No bindings can be read.
proof fn lemma_readable_empty(levels: int)
    ensures
        readable(Seq::<(Seq<char>, Bencode)>::empty(), levels),
{
    reveal(readable);
}

/// The dictionary of bindings that can be read can be read.
proof fn lemma_readable_dictionary(s: Seq<(Seq<char>, Bencode)>, levels: int)
    requires
        readable(s, levels),
        levels >= 0,
    ensures
        parseable(Bencode::Dict(dictionary(s)), levels + 1),
{
    reveal(readable);
    reveal(short);
    lemma_dictionary_parseable(s, levels + 1);
}

proof fn lemma_integer_parseable(n: int, levels: int)
    requires
        i64::MIN <= n <= i64::MAX,
        levels >= 0,
    ensures
        parseable(Bencode::Integer(n), levels),
{
}

/// One more binding that can be read.
proof fn lemma_readable_push(
    a: Seq<(Seq<char>, Bencode)>,
    k: Seq<char>,
    v: Bencode,
    levels: int,
)
    requires
        readable(a, levels),
        parseable(v, levels),
        short(k),
    ensures
        readable(a.push((k, v)), levels),
{
    reveal(readable);
    let b = a.push((k, v));
    assert forall|i: int| 0 <= i < b.len() implies parseable((#[trigger] b[i]).1, levels)
        && short(b[i].0) by {
        if i < a.len() {
            assert(b[i] == a[i]);
        }
    }
}

proof fn lemma_readable_bytes(a: Seq<(Seq<char>, Bencode)>, k: Seq<char>, b: Seq<u8>, levels: int)
    requires
        readable(a, levels),
        levels >= 0,
        b.len() <= usize::MAX,
        short(k),
    ensures
        readable(a.push(binds(k, b)), levels),
{
    lemma_bytes_parseable(b, levels);
    lemma_readable_push(a, k, Bencode::Bytes(b), levels);
}

/// One more binding of a name that can be read.
proof fn lemma_readable_name(a: Seq<(Seq<char>, Bencode)>, k: Seq<char>, name: Seq<char>, levels: int)
    requires
        readable(a, levels),
        levels >= 0,
        short(name),
        short(k),
    ensures
        readable(a.push(binds(k, encode_utf8(name))), levels),
{
    reveal(short);
    lemma_readable_bytes(a, k, encode_utf8(name), levels);
}

proof fn lemma_readable_some(a: Seq<(Seq<char>, Bencode)>, k: Seq<char>, b: Seq<u8>, levels: int)
    requires
        readable(a, levels),
        levels >= 0,
        b.len() <= usize::MAX,
        short(k),
    ensures
        readable(a + binds_some(k, b), levels),
{
    if b.len() == 0 {
        assert(a + binds_some(k, b) =~= a);
    } else {
        lemma_readable_bytes(a, k, b, levels);
        assert(a + binds_some(k, b) =~= a.push(binds(k, b)));
    }
}

proof fn lemma_readable_want(a: Seq<(Seq<char>, Bencode)>, want: Want)
    requires
        readable(a, 126),
    ensures
        readable(a + want_bindings(want), 126),
{
    lemma_keys();
    lemma_want(want);
    if want == Want::Neither {
        assert(a + want_bindings(want) =~= a);
    } else {
        lemma_readable_push(a, "want"@, Bencode::List(want_items(want)), 126);
        assert(a + want_bindings(want) =~= a.push(("want"@, Bencode::List(want_items(want)))));
    }
}

proof fn lemma_id_readable(id: Seq<u8>)
    requires
        id.len() == 20,
    ensures
        readable(seq![binds("id"@, id)], 126),
{
    lemma_keys();
    let e = Seq::<(Seq<char>, Bencode)>::empty();
    lemma_readable_empty(126);
    lemma_readable_bytes(e, "id"@, id, 126);
    assert(seq![binds("id"@, id)] =~= e.push(binds("id"@, id)));
}

proof fn lemma_got_readable(
    id: Seq<u8>,
    token: Seq<u8>,
    values: Seq<SocketAddr>,
    nodes: Seq<u8>,
    nodes6: Seq<u8>,
)
    requires
        id.len() == 20,
        token.len() <= usize::MAX,
        nodes.len() <= usize::MAX,
        nodes6.len() <= usize::MAX,
    ensures
        readable(
            seq![binds("id"@, id), binds("token"@, token)] + value_bindings(values) + binds_some(
                "nodes"@,
                nodes,
            ) + binds_some("nodes6"@, nodes6),
            126,
        ),
{
    lemma_keys();
    lemma_id_readable(id);
    let b1 = seq![binds("id"@, id)];
    let base = seq![binds("id"@, id), binds("token"@, token)];
    lemma_readable_bytes(b1, "token"@, token, 126);
    assert(base =~= b1.push(binds("token"@, token)));
    lemma_values(values);
    let with_values = base + value_bindings(values);
    if values.len() == 0 {
        assert(with_values =~= base);
    } else {
        lemma_readable_push(base, "values"@, Bencode::List(value_items(values)), 126);
        assert(with_values =~= base.push(("values"@, Bencode::List(value_items(values)))));
    }
    lemma_readable_some(with_values, "nodes"@, nodes, 126);
    lemma_readable_some(with_values + binds_some("nodes"@, nodes), "nodes6"@, nodes6, 126);
}

proof fn lemma_announce_readable(
    id: Seq<u8>,
    info_hash: Seq<u8>,
    token: Seq<u8>,
    port: u16,
    implied_port: u8,
)
    requires
        id.len() == 20,
        info_hash.len() == 20,
        token.len() <= usize::MAX,
    ensures
        readable(
            argument_bindings(Content::Announce { id, info_hash, token, port, implied_port }),
            126,
        ),
{
    lemma_keys();
    lemma_id_readable(id);
    let b1 = seq![binds("id"@, id)];
    let b2 = b1.push(binds("info_hash"@, info_hash));
    let b3 = b2.push(binds("token"@, token));
    let b4 = b3.push(("port"@, Bencode::Integer(port as int)));
    let b5 = b4.push(("implied_port"@, Bencode::Integer(implied_port as int)));
    lemma_readable_bytes(b1, "info_hash"@, info_hash, 126);
    lemma_readable_bytes(b2, "token"@, token, 126);
    lemma_integer_parseable(port as int, 126);
    lemma_integer_parseable(implied_port as int, 126);
    lemma_readable_push(b3, "port"@, Bencode::Integer(port as int), 126);
    lemma_readable_push(b4, "implied_port"@, Bencode::Integer(implied_port as int), 126);
    assert(argument_bindings(Content::Announce { id, info_hash, token, port, implied_port })
        =~= b5);
}

proof fn lemma_arguments_readable(m: Krpc)
    requires
        sized(m),
    ensures
        readable(argument_bindings(m.content), 126),
{
    lemma_keys();
    match m.content {
        Content::Ping { id } => lemma_id_readable(id),
        Content::Pong { id, ip } => lemma_id_readable(id),
        Content::Announced { id, ip } => lemma_id_readable(id),
        Content::FindNode { id, target, want } => {
            lemma_id_readable(id);
            lemma_readable_bytes(seq![binds("id"@, id)], "target"@, target, 126);
            assert(seq![binds("id"@, id), binds("target"@, target)] =~= seq![binds("id"@, id)].push(
                binds("target"@, target),
            ));
            lemma_readable_want(seq![binds("id"@, id), binds("target"@, target)], want);
        },
        Content::GetPeers { id, info_hash, want } => {
            lemma_id_readable(id);
            lemma_readable_bytes(seq![binds("id"@, id)], "info_hash"@, info_hash, 126);
            assert(seq![binds("id"@, id), binds("info_hash"@, info_hash)] =~= seq![
                binds("id"@, id),
            ].push(binds("info_hash"@, info_hash)));
            lemma_readable_want(seq![binds("id"@, id), binds("info_hash"@, info_hash)], want);
        },
        Content::FoundNodes { id, nodes, nodes6, ip } => {
            lemma_id_readable(id);
            lemma_readable_some(seq![binds("id"@, id)], "nodes"@, nodes, 126);
            lemma_readable_some(
                seq![binds("id"@, id)] + binds_some("nodes"@, nodes),
                "nodes6"@,
                nodes6,
                126,
            );
        },
        Content::GotPeers { id, token, values, nodes, nodes6, ip } => {
            lemma_got_readable(id, token, values, nodes, nodes6);
        },
        Content::Announce { id, info_hash, token, port, implied_port } => {
            lemma_announce_readable(id, info_hash, token, port, implied_port);
        },
        Content::Error { code, message } => lemma_readable_empty(126),
    }
}

proof fn lemma_query_readable(t: Seq<u8>, q: QueryMethod, args: Seq<(Seq<char>, Bencode)>)
    requires
        t.len() <= usize::MAX,
        parseable(Bencode::Dict(dictionary(args)), 127),
    ensures
        readable(query_bindings(t, q, args), 127),
{
    lemma_keys();
    let e = Seq::<(Seq<char>, Bencode)>::empty();
    lemma_readable_empty(127);
    let b1 = e.push(binds("t"@, t));
    let b2 = b1.push(binds("y"@, encode_utf8("q"@)));
    let b3 = b2.push(binds("q"@, q.name()));
    let b4 = b3.push(("a"@, Bencode::Dict(dictionary(args))));
    lemma_readable_bytes(e, "t"@, t, 127);
    lemma_readable_name(b1, "y"@, "q"@, 127);
    match q {
        QueryMethod::Ping => lemma_readable_name(b2, "q"@, "ping"@, 127),
        QueryMethod::FindNode => lemma_readable_name(b2, "q"@, "find_node"@, 127),
        QueryMethod::GetPeers => lemma_readable_name(b2, "q"@, "get_peers"@, 127),
        QueryMethod::AnnouncePeer => lemma_readable_name(b2, "q"@, "announce_peer"@, 127),
    }
    lemma_readable_push(b3, "a"@, Bencode::Dict(dictionary(args)), 127);
    assert(query_bindings(t, q, args) =~= b4);
}

proof fn lemma_error_list(code: i32, message: Seq<u8>)
    requires
        message.len() <= usize::MAX,
    ensures
        parseable(
            Bencode::List(seq![Bencode::Integer(code as int), Bencode::Bytes(message)]),
            127,
        ),
{
    let l = seq![Bencode::Integer(code as int), Bencode::Bytes(message)];
    assert forall|i: int| 0 <= i < l.len() implies match #[trigger] l[i] {
        Bencode::Bytes(b) => b.len() <= usize::MAX,
        Bencode::Integer(n) => i64::MIN <= n <= i64::MAX,
        _ => false,
    } by {
        if i == 0 {
            assert(l[i] == Bencode::Integer(code as int));
        } else {
            assert(l[i] == Bencode::Bytes(message));
        }
    }
    lemma_list_parseable(l, 127);
}

proof fn lemma_error_readable(t: Seq<u8>, code: i32, message: Seq<u8>)
    requires
        t.len() <= usize::MAX,
        message.len() <= usize::MAX,
    ensures
        readable(
            message_bindings(Krpc { transaction: t, content: Content::Error { code, message } }),
            127,
        ),
{
    lemma_keys();
    let l = seq![Bencode::Integer(code as int), Bencode::Bytes(message)];
    lemma_error_list(code, message);
    let e = Seq::<(Seq<char>, Bencode)>::empty();
    lemma_readable_empty(127);
    let b1 = e.push(binds("t"@, t));
    let b2 = b1.push(binds("y"@, encode_utf8("e"@)));
    let b3 = b2.push(("e"@, Bencode::List(l)));
    lemma_readable_bytes(e, "t"@, t, 127);
    lemma_readable_name(b1, "y"@, "e"@, 127);
    lemma_readable_push(b2, "e"@, Bencode::List(l), 127);
    assert(message_bindings(Krpc { transaction: t, content: Content::Error { code, message } })
        =~= b3);
}

proof fn lemma_message_parseable(m: Krpc)
    requires
        sized(m),
    ensures
        parseable(Bencode::Dict(dictionary(message_bindings(m))), 128),
{
    lemma_arguments_readable(m);
    let args = argument_bindings(m.content);
    lemma_readable_dictionary(args, 126);
    let bindings = message_bindings(m);
    match m.content {
        Content::Ping { id } => lemma_query_readable(m.transaction, QueryMethod::Ping, args),
        Content::FindNode { id, target, want } => lemma_query_readable(
            m.transaction,
            QueryMethod::FindNode,
            args,
        ),
        Content::GetPeers { id, info_hash, want } => lemma_query_readable(
            m.transaction,
            QueryMethod::GetPeers,
            args,
        ),
        Content::Announce { id, info_hash, token, port, implied_port } => lemma_query_readable(
            m.transaction,
            QueryMethod::AnnouncePeer,
            args,
        ),
        Content::Pong { id, ip } => lemma_response_readable(m.transaction, args, ip),
        Content::Announced { id, ip } => lemma_response_readable(m.transaction, args, ip),
        Content::FoundNodes { id, nodes, nodes6, ip } => lemma_response_readable(
            m.transaction,
            args,
            ip,
        ),
        Content::GotPeers { id, token, values, nodes, nodes6, ip } => lemma_response_readable(
            m.transaction,
            args,
            ip,
        ),
        Content::Error { code, message } => lemma_error_readable(m.transaction, code, message),
    }
    lemma_readable_dictionary(bindings, 127);
}

proof fn lemma_response_readable(
    t: Seq<u8>,
    args: Seq<(Seq<char>, Bencode)>,
    ip: Option<SocketAddr>,
)
    requires
        t.len() <= usize::MAX,
        parseable(Bencode::Dict(dictionary(args)), 127),
    ensures
        readable(response_bindings(t, args, ip), 127),
{
    lemma_keys();
    let e = Seq::<(Seq<char>, Bencode)>::empty();
    lemma_readable_empty(127);
    let b1 = e.push(binds("t"@, t));
    let b2 = b1.push(binds("y"@, encode_utf8("r"@)));
    let b3 = b2.push(("r"@, Bencode::Dict(dictionary(args))));
    lemma_readable_bytes(e, "t"@, t, 127);
    lemma_readable_name(b1, "y"@, "r"@, 127);
    lemma_readable_push(b2, "r"@, Bencode::Dict(dictionary(args)), 127);
    let base = seq![
        binds("t"@, t),
        binds("y"@, encode_utf8("r"@)),
        ("r"@, Bencode::Dict(dictionary(args))),
    ];
    assert(base =~= b3);
    match ip {
        Some(a) => {
            law_compact_peer(a);
            lemma_readable_bytes(base, "ip"@, compact_peer(a), 127);
            assert(response_bindings(t, args, ip) =~= base.push(binds("ip"@, compact_peer(a))));
        },
        None => {
            assert(response_bindings(t, args, ip) =~= base);
        },
    }
}

/// The bindings of a response can be looked up.
proof fn lemma_response_lookup(
    t: Seq<u8>,
    args: Seq<(Seq<char>, Bencode)>,
    ip: Option<SocketAddr>,
)
    ensures
        ({
            let d = dictionary(response_bindings(t, args, ip));
            &&& lookup(d, "t"@) == Some(Bencode::Bytes(t))
            &&& lookup(d, "y"@) == Some(Bencode::Bytes(encode_utf8("r"@)))
            &&& lookup(d, "r"@) == Some(Bencode::Dict(dictionary(args)))
            &&& lookup(d, "ip"@) == match ip {
                Some(a) => Some(Bencode::Bytes(compact_peer(a))),
                None => None,
            }
        }),
{
    lemma_keys_differ();
    let b1 = seq![binds("t"@, t)];
    let b2 = b1.push(binds("y"@, encode_utf8("r"@)));
    let b3 = b2.push(("r"@, Bencode::Dict(dictionary(args))));
    let base = seq![
        binds("t"@, t),
        binds("y"@, encode_utf8("r"@)),
        ("r"@, Bencode::Dict(dictionary(args))),
    ];
    assert(base =~= b3);
    assert forall|key: Seq<char>| #[trigger] lookup(dictionary(base), key) == if key == "r"@ {
        Some(Bencode::Dict(dictionary(args)))
    } else if key == "y"@ {
        Some(Bencode::Bytes(encode_utf8("r"@)))
    } else if key == "t"@ {
        Some(Bencode::Bytes(t))
    } else {
        None
    } by {
        lemma_one_lookup("t"@, Bencode::Bytes(t), key);
        lemma_push_lookup(b1, "y"@, Bencode::Bytes(encode_utf8("r"@)), key);
        lemma_push_lookup(b2, "r"@, Bencode::Dict(dictionary(args)), key);
    }
    lemma_optional_lookup(base, ip_bindings(ip), "t"@);
    lemma_optional_lookup(base, ip_bindings(ip), "y"@);
    lemma_optional_lookup(base, ip_bindings(ip), "r"@);
    lemma_optional_lookup(base, ip_bindings(ip), "ip"@);
}

/// The bindings of a query can be looked up.
proof fn lemma_query_lookup(t: Seq<u8>, q: QueryMethod, args: Seq<(Seq<char>, Bencode)>)
    ensures
        ({
            let d = dictionary(query_bindings(t, q, args));
            &&& lookup(d, "t"@) == Some(Bencode::Bytes(t))
            &&& lookup(d, "y"@) == Some(Bencode::Bytes(encode_utf8("q"@)))
            &&& lookup(d, "q"@) == Some(Bencode::Bytes(q.name()))
            &&& lookup(d, "a"@) == Some(Bencode::Dict(dictionary(args)))
        }),
{
    lemma_keys_differ();
    let b1 = seq![binds("t"@, t)];
    let b2 = b1.push(binds("y"@, encode_utf8("q"@)));
    let b3 = b2.push(binds("q"@, q.name()));
    let b4 = b3.push(("a"@, Bencode::Dict(dictionary(args))));
    assert(query_bindings(t, q, args) =~= b4);
    assert forall|key: Seq<char>| #[trigger] lookup(dictionary(b4), key) == if key == "a"@ {
        Some(Bencode::Dict(dictionary(args)))
    } else if key == "q"@ {
        Some(Bencode::Bytes(q.name()))
    } else if key == "y"@ {
        Some(Bencode::Bytes(encode_utf8("q"@)))
    } else if key == "t"@ {
        Some(Bencode::Bytes(t))
    } else {
        None
    } by {
        lemma_one_lookup("t"@, Bencode::Bytes(t), key);
        lemma_push_lookup(b1, "y"@, Bencode::Bytes(encode_utf8("q"@)), key);
        lemma_push_lookup(b2, "q"@, Bencode::Bytes(q.name()), key);
        lemma_push_lookup(b3, "a"@, Bencode::Dict(dictionary(args)), key);
    }
}

proof fn lemma_names(q: QueryMethod)
    ensures
        QueryMethod::named(q.name()) == Some(q),
{
    lemma_keys_differ();
    lemma_bytes_differ("ping"@, "find_node"@);
    lemma_bytes_differ("ping"@, "get_peers"@);
    lemma_bytes_differ("ping"@, "announce_peer"@);
    lemma_bytes_differ("find_node"@, "get_peers"@);
    lemma_bytes_differ("find_node"@, "announce_peer"@);
    lemma_bytes_differ("get_peers"@, "announce_peer"@);
}

/// The arguments of a response with nodes can be looked up.
proof fn lemma_node_lookup(base: Seq<(Seq<char>, Bencode)>, nodes: Seq<u8>, nodes6: Seq<u8>)
    ensures
        ({
            let d = dictionary(base + binds_some("nodes"@, nodes) + binds_some("nodes6"@, nodes6));
            &&& lookup(d, "nodes"@) == if nodes.len() > 0 {
                Some(Bencode::Bytes(nodes))
            } else {
                lookup(dictionary(base), "nodes"@)
            }
            &&& lookup(d, "nodes6"@) == if nodes6.len() > 0 {
                Some(Bencode::Bytes(nodes6))
            } else {
                lookup(dictionary(base), "nodes6"@)
            }
            &&& forall|key: Seq<char>|
                key != "nodes"@ && key != "nodes6"@ ==> #[trigger] lookup(d, key) == lookup(
                    dictionary(base),
                    key,
                )
        }),
{
    lemma_keys_differ();
    let mid = base + binds_some("nodes"@, nodes);
    let all = mid + binds_some("nodes6"@, nodes6);
    assert forall|key: Seq<char>| #[trigger] lookup(dictionary(all), key) == if key == "nodes6"@
        && nodes6.len() > 0 {
        Some(Bencode::Bytes(nodes6))
    } else if key == "nodes"@ && nodes.len() > 0 {
        Some(Bencode::Bytes(nodes))
    } else {
        lookup(dictionary(base), key)
    } by {
        lemma_optional_lookup(base, binds_some("nodes"@, nodes), key);
        lemma_optional_lookup(mid, binds_some("nodes6"@, nodes6), key);
    }
}

/// A query is understood as it was meant.
proof fn lemma_query_content(m: Krpc)
    requires
        sized(m),
        m.content is Ping || m.content is FindNode || m.content is GetPeers || m.content is Announce,
    ensures
        content_of(dictionary(message_bindings(m)), encode_utf8("q"@)) == Some(m.content),
        crate::metainfo::bytes_field(dictionary(message_bindings(m)), "y"@) == Some(
            encode_utf8("q"@),
        ),
        crate::metainfo::bytes_field(dictionary(message_bindings(m)), "t"@) == Some(m.transaction),
{
    let args = argument_bindings(m.content);
    let t = m.transaction;
    lemma_keys_differ();
    match m.content {
        Content::Ping { id } => {
            lemma_query_lookup(t, QueryMethod::Ping, args);
            lemma_names(QueryMethod::Ping);
            lemma_one_lookup("id"@, Bencode::Bytes(id), "id"@);
        },
        Content::FindNode { id, target, want } => {
            lemma_query_lookup(t, QueryMethod::FindNode, args);
            lemma_names(QueryMethod::FindNode);
            lemma_two_and_want("target"@, id, target, want);
        },
        Content::GetPeers { id, info_hash, want } => {
            lemma_query_lookup(t, QueryMethod::GetPeers, args);
            lemma_names(QueryMethod::GetPeers);
            lemma_two_and_want("info_hash"@, id, info_hash, want);
        },
        Content::Announce { id, info_hash, token, port, implied_port } => {
            lemma_query_lookup(t, QueryMethod::AnnouncePeer, args);
            lemma_names(QueryMethod::AnnouncePeer);
            lemma_announce_lookup(id, info_hash, token, port, implied_port);
        },
        _ => {},
    }
}

/// The response of a ping or an announcement is read as that of a ping.
proof fn lemma_pong_content(m: Krpc, id: Seq<u8>, ip: Option<SocketAddr>)
    requires
        m.content == (Content::Pong { id, ip }) || m.content == (Content::Announced { id, ip }),
        id.len() == 20,
    ensures
        content_of(dictionary(message_bindings(m)), encode_utf8("r"@)) == Some(
            Content::Pong { id, ip },
        ),
{
    lemma_keys_differ();
    lemma_bytes_differ("q"@, "r"@);
    lemma_response_lookup(m.transaction, argument_bindings(m.content), ip);
    lemma_only_id(id);
    if let Some(a) = ip {
        law_compact_peer(a);
    }
}

/// The response of a search for nodes is read as such if it has nodes.
proof fn lemma_found_content(
    m: Krpc,
    id: Seq<u8>,
    nodes: Seq<u8>,
    nodes6: Seq<u8>,
    ip: Option<SocketAddr>,
)
    requires
        m.content == (Content::FoundNodes { id, nodes, nodes6, ip }),
        id.len() == 20,
    ensures
        content_of(dictionary(message_bindings(m)), encode_utf8("r"@)) == Some(
            as_received(m.content),
        ),
{
    lemma_keys_differ();
    lemma_bytes_differ("q"@, "r"@);
    lemma_response_lookup(m.transaction, argument_bindings(m.content), ip);
    lemma_only_id(id);
    lemma_node_lookup(seq![binds("id"@, id)], nodes, nodes6);
    if let Some(a) = ip {
        law_compact_peer(a);
    }
    let r = dictionary(argument_bindings(m.content));
    assert(lookup(r, "id"@) == Some(Bencode::Bytes(id)));
    assert(lookup(r, "token"@) is None);
    assert(lookup(r, "values"@) is None);
    if nodes6.len() == 0 {
        assert(nodes6 =~= seq![]);
    }
}

/// The response of a search for peers is read as it was meant.
proof fn lemma_got_content(
    m: Krpc,
    id: Seq<u8>,
    token: Seq<u8>,
    values: Seq<SocketAddr>,
    nodes: Seq<u8>,
    nodes6: Seq<u8>,
    ip: Option<SocketAddr>,
)
    requires
        m.content == (Content::GotPeers { id, token, values, nodes, nodes6, ip }),
        id.len() == 20,
    ensures
        content_of(dictionary(message_bindings(m)), encode_utf8("r"@)) == Some(m.content),
{
    lemma_keys_differ();
    lemma_bytes_differ("q"@, "r"@);
    lemma_response_lookup(m.transaction, argument_bindings(m.content), ip);
    lemma_got_lookup(id, token, values);
    let base = seq![binds("id"@, id), binds("token"@, token)] + value_bindings(values);
    lemma_node_lookup(base, nodes, nodes6);
    lemma_values(values);
    if let Some(a) = ip {
        law_compact_peer(a);
    }
    let r = dictionary(argument_bindings(m.content));
    assert(lookup(r, "id"@) == Some(Bencode::Bytes(id)));
    assert(lookup(r, "token"@) == Some(Bencode::Bytes(token)));
    if nodes.len() == 0 {
        assert(nodes =~= seq![]);
    }
    if nodes6.len() == 0 {
        assert(nodes6 =~= seq![]);
    }
    if values.len() == 0 {
        assert(values =~= seq![]);
    }
}

proof fn lemma_response_content(m: Krpc)
    requires
        sized(m),
        m.content is Pong || m.content is Announced || m.content is FoundNodes
            || m.content is GotPeers,
    ensures
        content_of(dictionary(message_bindings(m)), encode_utf8("r"@)) == Some(
            as_received(m.content),
        ),
        crate::metainfo::bytes_field(dictionary(message_bindings(m)), "y"@) == Some(
            encode_utf8("r"@),
        ),
        crate::metainfo::bytes_field(dictionary(message_bindings(m)), "t"@) == Some(m.transaction),
{
    let args = argument_bindings(m.content);
    match m.content {
        Content::Pong { id, ip } => {
            lemma_response_lookup(m.transaction, args, ip);
            lemma_pong_content(m, id, ip);
        },
        Content::Announced { id, ip } => {
            lemma_response_lookup(m.transaction, args, ip);
            lemma_pong_content(m, id, ip);
        },
        Content::FoundNodes { id, nodes, nodes6, ip } => {
            lemma_response_lookup(m.transaction, args, ip);
            lemma_found_content(m, id, nodes, nodes6, ip);
        },
        Content::GotPeers { id, token, values, nodes, nodes6, ip } => {
            lemma_response_lookup(m.transaction, args, ip);
            lemma_got_content(m, id, token, values, nodes, nodes6, ip);
        },
        _ => {},
    }
}

proof fn lemma_error_content(m: Krpc, code: i32, message: Seq<u8>)
    requires
        m.content == (Content::Error { code, message }),
    ensures
        content_of(dictionary(message_bindings(m)), encode_utf8("e"@)) == Some(m.content),
        crate::metainfo::bytes_field(dictionary(message_bindings(m)), "y"@) == Some(
            encode_utf8("e"@),
        ),
        crate::metainfo::bytes_field(dictionary(message_bindings(m)), "t"@) == Some(m.transaction),
{
    lemma_keys_differ();
    lemma_bytes_differ("q"@, "e"@);
    lemma_bytes_differ("r"@, "e"@);
    lemma_error_lookup(m.transaction, code, message);
}

/// Reading a message that was written gives the message as a receiver
/// understands it: the same message, but for responses that do not tell their
/// kind.
pub proof fn law_message_round_trip(m: Krpc)
    requires
        sized(m),
    ensures
        message_of(message_bytes(m)) == Some(
            Krpc { transaction: m.transaction, content: as_received(m.content) },
        ),
{
    let d = dictionary(message_bindings(m));
    lemma_message_parseable(m);
    law_parse_encode(Bencode::Dict(d), seq![]);
    assert(message_bytes(m) + Seq::<u8>::empty() =~= message_bytes(m));
    match m.content {
        Content::Error { code, message } => lemma_error_content(m, code, message),
        Content::Ping { id } => lemma_query_content(m),
        Content::FindNode { id, target, want } => lemma_query_content(m),
        Content::GetPeers { id, info_hash, want } => lemma_query_content(m),
        Content::Announce { id, info_hash, token, port, implied_port } => lemma_query_content(m),
        _ => lemma_response_content(m),
    }
}

proof fn lemma_only_id(id: Seq<u8>)
    ensures
        forall|key: Seq<char>|
            #[trigger] lookup(dictionary(seq![binds("id"@, id)]), key) == if key == "id"@ {
                Some(Bencode::Bytes(id))
            } else {
                None::<Bencode>
            },
{
    assert forall|key: Seq<char>|
        #[trigger] lookup(dictionary(seq![binds("id"@, id)]), key) == if key == "id"@ {
            Some(Bencode::Bytes(id))
        } else {
            None::<Bencode>
        } by {
        lemma_one_lookup("id"@, Bencode::Bytes(id), key);
    }
}

proof fn lemma_two_and_want(name: Seq<char>, id: Seq<u8>, other: Seq<u8>, want: Want)
    requires
        name != "id"@,
        name != "want"@,
    ensures
        ({
            let a = dictionary(seq![binds("id"@, id), binds(name, other)] + want_bindings(want));
            &&& lookup(a, "id"@) == Some(Bencode::Bytes(id))
            &&& lookup(a, name) == Some(Bencode::Bytes(other))
            &&& crate::dht::protocol::wanted(a) == want
        }),
{
    lemma_keys_differ();
    lemma_want(want);
    let b1 = seq![binds("id"@, id)];
    let b2 = b1.push(binds(name, other));
    let base = seq![binds("id"@, id), binds(name, other)];
    assert(base =~= b2);
    lemma_only_id(id);
    lemma_push_lookup(b1, name, Bencode::Bytes(other), "id"@);
    lemma_push_lookup(b1, name, Bencode::Bytes(other), name);
    lemma_push_lookup(b1, name, Bencode::Bytes(other), "want"@);
    lemma_optional_lookup(base, want_bindings(want), "id"@);
    lemma_optional_lookup(base, want_bindings(want), name);
    lemma_optional_lookup(base, want_bindings(want), "want"@);
}

proof fn lemma_announce_lookup(
    id: Seq<u8>,
    info_hash: Seq<u8>,
    token: Seq<u8>,
    port: u16,
    implied_port: u8,
)
    ensures
        ({
            let a = dictionary(
                argument_bindings(Content::Announce { id, info_hash, token, port, implied_port }),
            );
            &&& lookup(a, "id"@) == Some(Bencode::Bytes(id))
            &&& lookup(a, "info_hash"@) == Some(Bencode::Bytes(info_hash))
            &&& lookup(a, "token"@) == Some(Bencode::Bytes(token))
            &&& lookup(a, "port"@) == Some(Bencode::Integer(port as int))
            &&& lookup(a, "implied_port"@) == Some(Bencode::Integer(implied_port as int))
        }),
{
    lemma_keys_differ();
    let b1 = seq![binds("id"@, id)];
    let b2 = b1.push(binds("info_hash"@, info_hash));
    let b3 = b2.push(binds("token"@, token));
    let b4 = b3.push(("port"@, Bencode::Integer(port as int)));
    let b5 = b4.push(("implied_port"@, Bencode::Integer(implied_port as int)));
    let all = argument_bindings(Content::Announce { id, info_hash, token, port, implied_port });
    assert(all =~= b5);
    lemma_only_id(id);
    assert forall|key: Seq<char>| #[trigger] lookup(dictionary(b5), key) == if key
        == "implied_port"@ {
        Some(Bencode::Integer(implied_port as int))
    } else if key == "port"@ {
        Some(Bencode::Integer(port as int))
    } else if key == "token"@ {
        Some(Bencode::Bytes(token))
    } else if key == "info_hash"@ {
        Some(Bencode::Bytes(info_hash))
    } else if key == "id"@ {
        Some(Bencode::Bytes(id))
    } else {
        None
    } by {
        lemma_push_lookup(b1, "info_hash"@, Bencode::Bytes(info_hash), key);
        lemma_push_lookup(b2, "token"@, Bencode::Bytes(token), key);
        lemma_push_lookup(b3, "port"@, Bencode::Integer(port as int), key);
        lemma_push_lookup(b4, "implied_port"@, Bencode::Integer(implied_port as int), key);
    }
}

proof fn lemma_got_lookup(id: Seq<u8>, token: Seq<u8>, values: Seq<SocketAddr>)
    ensures
        ({
            let a = dictionary(
                seq![binds("id"@, id), binds("token"@, token)] + value_bindings(values),
            );
            &&& lookup(a, "id"@) == Some(Bencode::Bytes(id))
            &&& lookup(a, "token"@) == Some(Bencode::Bytes(token))
            &&& lookup(a, "values"@) == if values.len() > 0 {
                Some(Bencode::List(value_items(values)))
            } else {
                None
            }
            &&& lookup(a, "nodes"@) is None
            &&& lookup(a, "nodes6"@) is None
        }),
{
    lemma_keys_differ();
    let b1 = seq![binds("id"@, id)];
    let b2 = b1.push(binds("token"@, token));
    let base = seq![binds("id"@, id), binds("token"@, token)];
    assert(base =~= b2);
    lemma_only_id(id);
    let v = value_bindings(values);
    assert forall|key: Seq<char>| #[trigger] lookup(dictionary(base + v), key) == if key
        == "values"@ && values.len() > 0 {
        Some(Bencode::List(value_items(values)))
    } else if key == "token"@ {
        Some(Bencode::Bytes(token))
    } else if key == "id"@ {
        Some(Bencode::Bytes(id))
    } else {
        None
    } by {
        lemma_push_lookup(b1, "token"@, Bencode::Bytes(token), key);
        lemma_optional_lookup(base, v, key);
    }
}

proof fn lemma_error_lookup(t: Seq<u8>, code: i32, message: Seq<u8>)
    ensures
        ({
            let d = dictionary(
                message_bindings(Krpc { transaction: t, content: Content::Error { code, message } }),
            );
            &&& lookup(d, "t"@) == Some(Bencode::Bytes(t))
            &&& lookup(d, "y"@) == Some(Bencode::Bytes(encode_utf8("e"@)))
            &&& lookup(d, "e"@) == Some(
                Bencode::List(seq![Bencode::Integer(code as int), Bencode::Bytes(message)]),
            )
        }),
{
    lemma_keys_differ();
    let l = Bencode::List(seq![Bencode::Integer(code as int), Bencode::Bytes(message)]);
    let b1 = seq![binds("t"@, t)];
    let b2 = b1.push(binds("y"@, encode_utf8("e"@)));
    let b3 = b2.push(("e"@, l));
    let all = message_bindings(Krpc { transaction: t, content: Content::Error { code, message } });
    assert(all =~= b3);
    assert forall|key: Seq<char>| #[trigger] lookup(dictionary(b3), key) == if key == "e"@ {
        Some(l)
    } else if key == "y"@ {
        Some(Bencode::Bytes(encode_utf8("e"@)))
    } else if key == "t"@ {
        Some(Bencode::Bytes(t))
    } else {
        None
    } by {
        lemma_one_lookup("t"@, Bencode::Bytes(t), key);
        lemma_push_lookup(b1, "y"@, Bencode::Bytes(encode_utf8("e"@)), key);
        lemma_push_lookup(b2, "e"@, l, key);
    }
}

} // verus!

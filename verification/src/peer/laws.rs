//! What holds between building and reading extension messages.

use crate::bencode::grammar::{encode, encode_bytes, encode_entries, encode_items};
use crate::bencode::laws::{
    law_parse_encode, lemma_bytes_round_trip, lemma_dictionary_parseable, lemma_encode_head,
    lemma_entry_bytes, lemma_integer_round_trip, lemma_item_place, machine_sized, parseable,
};
use crate::bencode::{
    dictionary, lemma_dictionary_lookup, lemma_dictionary_unbound, Bencode, MAX_PARSE_DEPTH,
};
use crate::bytes::first_index;
use crate::net::{law_compact_v4, SocketAddrV4};
use crate::peer::extension::{
    as_size, compact_list, dict_end, dict_end_from, exchange_entries, exchanged_peers,
    extension_ids, integer_or, low_byte, metadata_data_entries, metadata_entries,
    metadata_message, our_extensions, our_handshake, peer_flags, peers_in,
};
use vstd::prelude::*;
use vstd::utf8::encode_utf8;

verus! {

/// A short ASCII key has a machine-sized encoding.
proof fn lemma_short_key(key: Seq<char>)
    requires
        vstd::utf8::is_ascii_chars(key),
        key.len() <= 100,
    ensures
        encode_utf8(key).len() <= usize::MAX,
{
    vstd::utf8::is_ascii_chars_encode_utf8(key);
}

/// A peer that reads the client's extended handshake finds peer exchange under
/// id 1 and metadata exchange under id 2.
pub proof fn law_handshake_ids(reqq: u32)
    ensures
        extension_ids(encode(Bencode::Dict(our_handshake(reqq)))) == (Some(1u8), Some(2u8)),
{
    reveal_strlit("ut_pex");
    reveal_strlit("ut_metadata");
    reveal_strlit("m");
    reveal_strlit("v");
    reveal_strlit("reqq");
    reveal_strlit("retorrent-0.1.0");
    let exts = seq![("ut_pex"@, Bencode::Integer(1)), ("ut_metadata"@, Bencode::Integer(2))];
    let tops = seq![
        ("m"@, Bencode::Dict(our_extensions())),
        ("v"@, Bencode::Bytes(encode_utf8("retorrent-0.1.0"@))),
        ("reqq"@, Bencode::Integer(reqq as int)),
    ];
    lemma_short_key("ut_pex"@);
    lemma_short_key("ut_metadata"@);
    lemma_short_key("m"@);
    lemma_short_key("v"@);
    lemma_short_key("reqq"@);
    lemma_short_key("retorrent-0.1.0"@);
    lemma_dictionary_parseable(exts, 1);
    lemma_levels(Bencode::Dict(our_extensions()), 1, 127);
    lemma_dictionary_parseable(tops, 128);
    let b = Bencode::Dict(our_handshake(reqq));
    law_parse_encode(b, seq![]);
    assert(encode(b) + Seq::<u8>::empty() =~= encode(b));
    assert("m"@.len() != "reqq"@.len());
    assert("m"@[0] != "v"@[0]);
    lemma_dictionary_lookup(tops, 0);
    assert("ut_pex"@.len() != "ut_metadata"@.len());
    lemma_dictionary_lookup(exts, 0);
    lemma_dictionary_lookup(exts, 1);
}

/// A value that nests within some levels nests within more.
proof fn lemma_levels(b: Bencode, levels: int, more: int)
    requires
        parseable(b, levels),
        levels <= more,
    ensures
        parseable(b, more),
{
    lemma_nests_more(b, levels, more);
}

proof fn lemma_nests_more(b: Bencode, levels: int, more: int)
    requires
        crate::bencode::laws::nests_within(b, levels),
        levels <= more,
    ensures
        crate::bencode::laws::nests_within(b, more),
    decreases b,
{
    match b {
        Bencode::List(l) => {
            assert forall|i: int| 0 <= i < l.len() implies crate::bencode::laws::nests_within(
                #[trigger] l[i],
                more - 1,
            ) by {
                assert(crate::bencode::laws::nests_within(b->List_0[i], levels - 1));
                lemma_nests_more(l[i], levels - 1, more - 1);
            }
        },
        Bencode::Dict(e) => {
            assert forall|i: int| 0 <= i < e.len() implies crate::bencode::laws::nests_within(
                (#[trigger] e[i]).1,
                more - 1,
            ) by {
                assert(crate::bencode::laws::nests_within(b->Dict_0[i].1, levels - 1));
                lemma_nests_more(e[i].1, levels - 1, more - 1);
            }
        },
        _ => {},
    }
}

/// The addresses whose port is not zero.
pub open spec fn reachable(addrs: Seq<SocketAddrV4>) -> Seq<SocketAddrV4>
    decreases addrs.len(),
{
    if addrs.len() == 0 {
        seq![]
    } else if addrs.last().port > 0 {
        reachable(addrs.drop_last()).push(addrs.last())
    } else {
        reachable(addrs.drop_last())
    }
}

proof fn lemma_compact_len(addrs: Seq<SocketAddrV4>)
    ensures
        compact_list(addrs).len() == 6 * addrs.len(),
    decreases addrs.len(),
{
    if addrs.len() > 0 {
        lemma_compact_len(addrs.drop_last());
        law_compact_v4(addrs.last());
    }
}

/// Reading does not depend on bytes past the groups that are read.
proof fn lemma_peers_prefix(a: Seq<u8>, b: Seq<u8>, n: int)
    requires
        0 <= n,
        6 * n <= a.len(),
        6 * n <= b.len(),
        a.take(6 * n) == b.take(6 * n),
    ensures
        peers_in(a, n) == peers_in(b, n),
    decreases n,
{
    if n > 0 {
        assert(a.take(6 * (n - 1)) =~= a.take(6 * n).take(6 * (n - 1)));
        assert(b.take(6 * (n - 1)) =~= b.take(6 * n).take(6 * (n - 1)));
        lemma_peers_prefix(a, b, n - 1);
        assert(a.subrange(6 * (n - 1), 6 * n) =~= a.take(6 * n).subrange(6 * (n - 1), 6 * n));
        assert(b.subrange(6 * (n - 1), 6 * n) =~= b.take(6 * n).subrange(6 * (n - 1), 6 * n));
    }
}

/// Compact forms read back as the addresses they were made from, without those
/// that have no port.
pub proof fn law_compact_list(addrs: Seq<SocketAddrV4>)
    ensures
        compact_list(addrs).len() == 6 * addrs.len(),
        peers_in(compact_list(addrs), addrs.len() as int) == reachable(addrs),
    decreases addrs.len(),
{
    lemma_compact_len(addrs);
    if addrs.len() > 0 {
        let n = addrs.len() as int;
        let init = addrs.drop_last();
        let all = compact_list(addrs);
        law_compact_list(init);
        law_compact_v4(addrs.last());
        assert(all.take(6 * (n - 1)) =~= compact_list(init).take(6 * (n - 1)));
        lemma_peers_prefix(all, compact_list(init), n - 1);
        assert(all.subrange(6 * (n - 1), 6 * n) =~= addrs.last().compact());
    }
}

/// A peer that reads a peer exchange message finds the peers that it was built
/// from, without those that have no port.
pub proof fn law_pex_round_trip(added: Seq<SocketAddrV4>, dropped: Seq<SocketAddrV4>)
    requires
        6 * added.len() <= usize::MAX,
        6 * dropped.len() <= usize::MAX,
    ensures
        exchanged_peers(encode(Bencode::Dict(exchange_entries(added, dropped)))) == (
            reachable(added),
            reachable(dropped),
        ),
{
    reveal_strlit("added");
    reveal_strlit("added.f");
    reveal_strlit("dropped");
    let bindings = seq![
        ("added"@, Bencode::Bytes(compact_list(added))),
        ("added.f"@, Bencode::Bytes(peer_flags(added.len()))),
        ("dropped"@, Bencode::Bytes(compact_list(dropped))),
    ];
    lemma_short_key("added"@);
    lemma_short_key("added.f"@);
    lemma_short_key("dropped"@);
    law_compact_list(added);
    law_compact_list(dropped);
    lemma_dictionary_parseable(bindings, 128);
    let b = Bencode::Dict(exchange_entries(added, dropped));
    law_parse_encode(b, seq![]);
    assert(encode(b) + Seq::<u8>::empty() =~= encode(b));
    assert("added"@.len() != "added.f"@.len());
    assert("added"@.len() != "dropped"@.len());
    lemma_dictionary_lookup(bindings, 0);
    lemma_dictionary_lookup(bindings, 2);
}

/// The search for the end of a dictionary passes over any value inside it.
proof fn lemma_skip_value(data: Seq<u8>, pos: int, depth: int, b: Bencode)
    requires
        machine_sized(b),
        depth >= 1,
        0 <= pos,
        pos + encode(b).len() <= data.len(),
        data.subrange(pos, pos + encode(b).len()) == encode(b),
    ensures
        dict_end_from(data, pos, depth) == dict_end_from(data, pos + encode(b).len(), depth),
    decreases b, 1int, 0int,
{
    let enc = encode(b);
    lemma_encode_head(b);
    assert(data.subrange(pos, pos + enc.len())[0] == enc[0]);
    match b {
        Bencode::Integer(n) => {
            lemma_integer_round_trip(data, pos, n);
            assert(first_index(data, pos, 101) == first_index(data, pos + 1, 101));
            crate::bencode::grammar::lemma_first_index(data, pos, 101);
        },
        Bencode::Bytes(s) => {
            lemma_bytes_round_trip(data, pos, s);
        },
        Bencode::List(l) => {
            assert(l.take(0) =~= seq![]);
            assert(dict_end_from(data, pos, depth) == dict_end_from(data, pos + 1, depth + 1));
            lemma_skip_items(data, pos, depth, b, 0);
        },
        Bencode::Dict(e) => {
            assert(e.take(0) =~= seq![]);
            assert(dict_end_from(data, pos, depth) == dict_end_from(data, pos + 1, depth + 1));
            lemma_skip_entries(data, pos, depth + 1, b, 0);
            lemma_last_byte(data, pos, b);
        },
    }
}

/// A list or dictionary ends with the end mark.
proof fn lemma_last_byte(data: Seq<u8>, pos: int, b: Bencode)
    requires
        b is List || b is Dict,
        0 <= pos,
        pos + encode(b).len() <= data.len(),
        data.subrange(pos, pos + encode(b).len()) == encode(b),
    ensures
        data[pos + encode(b).len() - 1] == 101,
{
    let enc = encode(b);
    assert(data.subrange(pos, pos + enc.len())[enc.len() - 1] == enc[enc.len() - 1]);
}

proof fn lemma_skip_items(data: Seq<u8>, pos: int, depth: int, b: Bencode, k: int)
    requires
        b is List,
        machine_sized(b),
        depth >= 1,
        0 <= k <= b->List_0.len(),
        0 <= pos,
        pos + encode(b).len() <= data.len(),
        data.subrange(pos, pos + encode(b).len()) == encode(b),
    ensures
        dict_end_from(data, pos + 1 + encode_items(b->List_0.take(k)).len(), depth + 1)
            == dict_end_from(data, pos + encode(b).len(), depth),
    decreases b, 0int, b->List_0.len() - k,
{
    let l = b->List_0;
    let enc = encode(b);
    let part = data.subrange(pos, pos + enc.len());
    let at = pos + 1 + encode_items(l.take(k)).len();
    if k == l.len() {
        assert(l.take(k) =~= l);
        lemma_last_byte(data, pos, b);
    } else {
        lemma_item_place(l, k);
        assert(machine_sized(b->List_0[k]));
        let item = encode(l[k]);
        assert forall|j: int| 0 <= j < item.len() implies data[at + j] == item[j] by {
            assert(part[at - pos + j] == enc[at - pos + j]);
        }
        assert(data.subrange(at, at + item.len()) =~= item);
        lemma_skip_value(data, at, depth + 1, l[k]);
        lemma_skip_items(data, pos, depth, b, k + 1);
    }
}

/// The search comes from the entry at `k` to the end mark of the dictionary.
proof fn lemma_skip_entries(data: Seq<u8>, pos: int, depth: int, b: Bencode, k: int)
    requires
        b is Dict,
        machine_sized(b),
        depth >= 1,
        0 <= k <= b->Dict_0.len(),
        0 <= pos,
        pos + encode(b).len() <= data.len(),
        data.subrange(pos, pos + encode(b).len()) == encode(b),
    ensures
        dict_end_from(data, pos + 1 + encode_entries(b->Dict_0.take(k)).len(), depth)
            == dict_end_from(data, pos + encode(b).len() - 1, depth),
    decreases b, 0int, b->Dict_0.len() - k,
{
    let e = b->Dict_0;
    let at = pos + 1int + encode_entries(e.take(k)).len();
    if k == e.len() {
        assert(e.take(k) =~= e);
    } else {
        assert(machine_sized(b->Dict_0[k].1));
        lemma_entry_bytes(data, pos, e, k);
        let key = encode_utf8(e[k].0);
        let mid = at + encode_bytes(key).len();
        lemma_bytes_round_trip(data, at, key);
        assert(dict_end_from(data, at, depth) == dict_end_from(data, mid, depth));
        lemma_skip_value(data, mid, depth, e[k].1);
        lemma_skip_entries(data, pos, depth, b, k + 1);
    }
}

/// The end of a dictionary is found, whatever it holds and whatever follows it.
pub proof fn law_dict_end(e: Seq<(Seq<char>, Bencode)>, rest: Seq<u8>)
    requires
        machine_sized(Bencode::Dict(e)),
    ensures
        dict_end(encode(Bencode::Dict(e)) + rest) == Some(encode(Bencode::Dict(e)).len() as int),
{
    let b = Bencode::Dict(e);
    let enc = encode(b);
    let data = enc + rest;
    assert(data.subrange(0, enc.len() as int) =~= enc);
    assert(e.take(0) =~= seq![]);
    assert(data[0] == 100);
    assert(dict_end_from(data, 0, 0) == dict_end_from(data, 1, 1));
    lemma_skip_entries(data, 0, 1, b, 0);
    lemma_last_byte(data, 0, b);
}

/// A metadata message is understood, whatever else its dictionary holds: the
/// type, the piece, the size if it announces data, and all bytes after the
/// dictionary.
pub proof fn law_metadata_understood(e: Seq<(Seq<char>, Bencode)>, rest: Seq<u8>)
    requires
        parseable(Bencode::Dict(e), MAX_PARSE_DEPTH as int),
    ensures
        ({
            let kind = low_byte(integer_or(e, "msg_type"@, 255));
            metadata_message(encode(Bencode::Dict(e)) + rest) == (
                kind,
                as_size(integer_or(e, "piece"@, 0)),
                if kind == 1 {
                    as_size(integer_or(e, "total_size"@, 0))
                } else {
                    0
                },
                rest,
            )
        }),
{
    let enc = encode(Bencode::Dict(e));
    let payload = enc + rest;
    law_dict_end(e, rest);
    law_parse_encode(Bencode::Dict(e), seq![]);
    assert(enc + Seq::<u8>::empty() =~= enc);
    assert(payload.take(enc.len() as int) =~= enc);
    assert(payload.skip(enc.len() as int) =~= rest);
}

proof fn lemma_integers_parseable(bindings: Seq<(Seq<char>, Bencode)>)
    requires
        forall|i: int|
            0 <= i < bindings.len() ==> (#[trigger] bindings[i]).1 is Integer && i64::MIN
                <= bindings[i].1->Integer_0 <= i64::MAX && encode_utf8(bindings[i].0).len()
                <= usize::MAX,
    ensures
        parseable(Bencode::Dict(dictionary(bindings)), MAX_PARSE_DEPTH as int),
{
    assert forall|i: int| 0 <= i < bindings.len() implies parseable((#[trigger] bindings[i]).1, 127) by {
        assert(bindings[i].1 is Integer);
    }
    lemma_dictionary_parseable(bindings, 128);
}

/// A peer that reads a metadata request, data or reject message finds its type
/// (0, 1 or 2) and the piece it is about, and all bytes after the header.
pub proof fn law_metadata_header(kind: int, piece: usize, rest: Seq<u8>)
    requires
        0 <= kind <= 2,
        piece <= i64::MAX,
    ensures
        metadata_message(encode(Bencode::Dict(metadata_entries(kind, piece as int))) + rest) == (
            kind as u8,
            piece,
            0usize,
            rest,
        ),
{
    reveal_strlit("msg_type");
    reveal_strlit("piece");
    reveal_strlit("total_size");
    lemma_short_key("msg_type"@);
    lemma_short_key("piece"@);
    let bindings = seq![
        ("msg_type"@, Bencode::Integer(kind)),
        ("piece"@, Bencode::Integer(piece as int)),
    ];
    lemma_integers_parseable(bindings);
    law_metadata_understood(dictionary(bindings), rest);
    assert("msg_type"@.len() == 8 && "piece"@.len() == 5 && "total_size"@.len() == 10);
    lemma_dictionary_lookup(bindings, 0);
    lemma_dictionary_lookup(bindings, 1);
    lemma_dictionary_unbound(bindings, "total_size"@);
}

/// A peer that reads the first metadata piece finds the total size, and the
/// data exactly as it was sent.
pub proof fn law_metadata_data(piece: usize, total: usize, data: Seq<u8>)
    requires
        piece <= i64::MAX,
        total <= i64::MAX,
    ensures
        metadata_message(
            encode(Bencode::Dict(metadata_data_entries(piece as int, Some(total as int)))) + data,
        ) == (1u8, piece, total, data),
{
    reveal_strlit("msg_type");
    reveal_strlit("piece");
    reveal_strlit("total_size");
    lemma_short_key("msg_type"@);
    lemma_short_key("piece"@);
    lemma_short_key("total_size"@);
    let bindings = seq![
        ("msg_type"@, Bencode::Integer(1)),
        ("piece"@, Bencode::Integer(piece as int)),
        ("total_size"@, Bencode::Integer(total as int)),
    ];
    lemma_integers_parseable(bindings);
    law_metadata_understood(dictionary(bindings), data);
    assert("msg_type"@.len() == 8 && "piece"@.len() == 5 && "total_size"@.len() == 10);
    lemma_dictionary_lookup(bindings, 0);
    lemma_dictionary_lookup(bindings, 1);
    lemma_dictionary_lookup(bindings, 2);
}

} // verus!

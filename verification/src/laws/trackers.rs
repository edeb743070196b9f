//! What trackers are told, and what they answer.

use crate::bencode::grammar::{parsed, Fault};
use crate::bencode::Bencode;
use crate::laws::wire::{lemma_lists_peers, lists_peers};
use crate::laws::{binds, is_text, lemma_binds, lemma_is_text, unbound};
use crate::net::{Ipv4Addr, SocketAddrV4};
use crate::outside::percent_decoded;
use crate::text::{
    all_digits, ascii_chars, char_index, decimal, decimal_bytes, digits_value, is_ascii_bytes,
    lemma_ascii_utf8, lemma_decimal_shape, lemma_decimal_value,
};
use crate::tracker::http::{
    announce_url_of, answer_of, dotted_address, law_percent_round_trip, listed_peer, listed_peers,
    octet_value, percent_encoded, unreserved, upper_hex, AnswerFault, AnswerModel,
};
use crate::tracker::udp::endpoint_of;
use crate::tracker::{protocol_of, wait_of, Announce, Protocol};
use vstd::prelude::*;
use vstd::utf8::encode_utf8;

verus! {

/// A number that an answer may give.
pub open spec fn gives(e: Seq<(Seq<char>, Bencode)>, key: Seq<char>, n: Option<u64>) -> bool {
    match n {
        Some(v) => binds(e, key, Bencode::Integer(v as int)),
        None => unbound(e, key),
    }
}

proof fn lemma_gives(e: Seq<(Seq<char>, Bencode)>, key: Seq<char>, n: Option<u64>)
    requires
        gives(e, key, n),
    ensures
        crate::tracker::http::number_field(Bencode::Dict(e), key) == n,
{
    match n {
        Some(v) => {
            lemma_binds(e, key, Bencode::Integer(v as int));
        },
        None => {
            lemma_binds(e, key, Bencode::Integer(0));
        },
    }
}

/// What a tracker's answer says: how long to wait, by default half an hour; how
/// long at least; how many have it all and how many download; and the peers,
/// six bytes each.
pub proof fn law_answer_read(
    body: Seq<u8>,
    e: Seq<(Seq<char>, Bencode)>,
    interval: Option<u64>,
    least: Option<u64>,
    seeders: Option<u64>,
    leechers: Option<u64>,
    peers: Seq<u8>,
)
    requires
        parsed(body) == Ok::<Bencode, Fault>(Bencode::Dict(e)),
        unbound(e, "failure reason"@),
        unbound(e, "warning message"@),
        gives(e, "interval"@, interval),
        gives(e, "min interval"@, least),
        gives(e, "complete"@, seeders),
        gives(e, "incomplete"@, leechers),
        binds(e, "peers"@, Bencode::Bytes(peers)),
    ensures
        answer_of(body) matches Ok(m) && {
            &&& m.interval == match interval {
                Some(i) => i,
                None => 1800,
            }
            &&& m.min_interval == least
            &&& m.seeders == seeders
            &&& m.leechers == leechers
            &&& m.warning is None
            &&& lists_peers(peers, 0, peers.len() as int / 6, m.peers)
        },
{
    lemma_gives(e, "interval"@, interval);
    lemma_gives(e, "min interval"@, least);
    lemma_gives(e, "complete"@, seeders);
    lemma_gives(e, "incomplete"@, leechers);
    lemma_binds(e, "failure reason"@, Bencode::Integer(0));
    lemma_binds(e, "warning message"@, Bencode::Integer(0));
    lemma_binds(e, "peers"@, Bencode::Bytes(peers));
    lemma_lists_peers(peers, peers.len() as int / 6);
}

/// A tracker that gives a reason for its failure is answered with that reason,
/// whatever else it says; and one that names no peers has failed.
pub proof fn law_failure_read(body: Seq<u8>, e: Seq<(Seq<char>, Bencode)>, t: Seq<char>)
    requires
        parsed(body) == Ok::<Bencode, Fault>(Bencode::Dict(e)),
    ensures
        binds(e, "failure reason"@, Bencode::Bytes(encode_utf8(t))) ==> answer_of(body) == Err::<
            AnswerModel,
            AnswerFault,
        >(AnswerFault::Message(t)),
        unbound(e, "peers"@) ==> answer_of(body) is Err,
        answer_of(body) matches Ok(m) ==> (binds(
            e,
            "warning message"@,
            Bencode::Bytes(encode_utf8(t)),
        ) ==> m.warning == Some(t)),
{
    let v = Bencode::Bytes(encode_utf8(t));
    lemma_is_text(v, t);
    lemma_binds(e, "failure reason"@, v);
    lemma_binds(e, "warning message"@, v);
    lemma_binds(e, "peers"@, v);
}

proof fn lemma_octet(v: u8)
    ensures
        octet_value(decimal(v as nat)) == Some(v as int),
        forall|i: int|
            0 <= i < decimal(v as nat).len() ==> (#[trigger] decimal(v as nat)[i]) != '.',
        decimal(v as nat).len() > 0,
{
    let n = v as nat;
    lemma_decimal_value(n);
    lemma_decimal_shape(n);
    let d = decimal(n);
    assert forall|i: int| 0 <= i < d.len() implies (#[trigger] d[i]) != '.' by {
        assert(48 <= decimal_bytes(n)[i] <= 57);
    }
    reveal_with_fuel(decimal_bytes, 4);
    if n >= 10 {
        assert(decimal_bytes(n)[0] != 48);
        assert(d[0] == decimal_bytes(n)[0] as char);
    }
}

proof fn lemma_first_dot(s: Seq<char>, from: int, at: int)
    requires
        0 <= from <= at < s.len(),
        forall|i: int| from <= i < at ==> s[i] != '.',
        s[at] == '.',
    ensures
        char_index(s, from, '.') == at,
    decreases at - from,
{
    if from < at {
        lemma_first_dot(s, from + 1, at);
    }
}

/// An address written as four numbers with dots between them is read as the
/// address of those four bytes.
pub proof fn law_dotted_read(w: u8, x: u8, y: u8, z: u8)
    ensures
        dotted_address(
            decimal(w as nat) + seq!['.'] + decimal(x as nat) + seq!['.'] + decimal(y as nat)
                + seq!['.'] + decimal(z as nat),
        ) matches Some(a) && a.bits == ((w * 256 + x) * 256 + y) * 256 + z,
{
    let p = decimal(w as nat);
    let q = decimal(x as nat);
    let r = decimal(y as nat);
    let t = decimal(z as nat);
    let s = p + seq!['.'] + q + seq!['.'] + r + seq!['.'] + t;
    lemma_octet(w);
    lemma_octet(x);
    lemma_octet(y);
    lemma_octet(z);
    let a = p.len() as int;
    let b = a + 1 + q.len();
    let c = b + 1 + r.len();
    assert forall|i: int| 0 <= i < a implies s[i] != '.' by {
        assert(s[i] == p[i]);
    }
    assert forall|i: int| a + 1 <= i < b implies s[i] != '.' by {
        assert(s[i] == q[i - a - 1]);
    }
    assert forall|i: int| b + 1 <= i < c implies s[i] != '.' by {
        assert(s[i] == r[i - b - 1]);
    }
    assert(s[a] == '.' && s[b] == '.' && s[c] == '.');
    lemma_first_dot(s, 0, a);
    lemma_first_dot(s, a + 1, b);
    lemma_first_dot(s, b + 1, c);
    assert(s.subrange(0, a) =~= p);
    assert(s.subrange(a + 1, b) =~= q);
    assert(s.subrange(b + 1, c) =~= r);
    assert(s.subrange(c + 1, s.len() as int) =~= t);
    let bytes = seq![w, x, y, z];
    reveal_with_fuel(crate::bytes::be_value, 5);
    assert(bytes.drop_last() =~= seq![w, x, y]);
    assert(seq![w, x, y].drop_last() =~= seq![w, x]);
    assert(seq![w, x].drop_last() =~= seq![w]);
    assert(seq![w].drop_last() =~= Seq::<u8>::empty());
}

/// A peer of a list is read from the text of its address and its port.
pub proof fn law_listed_peer(e: Seq<(Seq<char>, Bencode)>, t: Seq<char>, a: Ipv4Addr, port: u16)
    requires
        binds(e, "ip"@, Bencode::Bytes(encode_utf8(t))),
        binds(e, "port"@, Bencode::Integer(port as int)),
        dotted_address(t) == Some(a),
    ensures
        listed_peer(Bencode::Dict(e)) == Some(SocketAddrV4 { ip: a, port }),
{
    let v = Bencode::Bytes(encode_utf8(t));
    lemma_is_text(v, t);
    lemma_binds(e, "ip"@, v);
    lemma_binds(e, "port"@, Bencode::Integer(port as int));
}

/// The peers of a list are those of its entries, in order.
pub proof fn law_listed_peers(l: Seq<Bencode>, peers: Seq<SocketAddrV4>)
    requires
        l.len() == peers.len(),
        forall|i: int| 0 <= i < l.len() ==> listed_peer(#[trigger] l[i]) == Some(peers[i]),
    ensures
        listed_peers(l) == peers,
    decreases l.len(),
{
    if l.len() > 0 {
        let n = l.len() - 1;
        assert(listed_peer(l[n]) == Some(peers[n]));
        assert forall|i: int| 0 <= i < l.drop_last().len() implies listed_peer(
            #[trigger] l.drop_last()[i],
        ) == Some(peers.drop_last()[i]) by {
            assert(listed_peer(l[i]) == Some(peers[i]));
        }
        law_listed_peers(l.drop_last(), peers.drop_last());
        assert(peers.drop_last().push(peers[n]) =~= peers);
    } else {
        assert(peers =~= seq![]);
    }
}

/// A text stands for bytes in a URL.
pub open spec fn spells(text: Seq<char>, b: Seq<u8>) -> bool {
    percent_decoded(encode_utf8(text)) == b
}

/// A text writes a number in decimal.
pub open spec fn tells(text: Seq<char>, n: int) -> bool {
    all_digits(text) && digits_value(text) == n
}

proof fn lemma_percent_ascii(b: Seq<u8>)
    ensures
        is_ascii_bytes(percent_encoded(b)),
    decreases b.len(),
{
    if b.len() > 0 {
        lemma_percent_ascii(b.drop_last());
        let x = b.last() as int;
        assert(0 <= x / 16 < 16);
        assert(upper_hex(x / 16) < 128 && upper_hex(x % 16) < 128);
    }
}

proof fn lemma_spelled(b: Seq<u8>)
    ensures
        spells(ascii_chars(percent_encoded(b)), b),
{
    lemma_percent_ascii(b);
    lemma_ascii_utf8(percent_encoded(b));
    law_percent_round_trip(b);
}

/// What an announcement asks of the tracker at a URL: behind the URL stand the
/// torrent, the client, the port, what was uploaded and downloaded and what is
/// left, that peers are wanted in six bytes each and how many, and the event.
pub proof fn law_announce_address(url: Seq<char>, a: Announce)
    ensures
        exists|
            hash: Seq<char>,
            id: Seq<char>,
            port: Seq<char>,
            up: Seq<char>,
            down: Seq<char>,
            left: Seq<char>,
            event: Seq<char>,
        |
            #![trigger spells(hash, a.info_hash@), spells(id, a.peer_id.0@), tells(port, a.port as int), tells(up, a.uploaded as int), tells(down, a.downloaded as int), tells(left, a.left as int), event.len()]
            {
                &&& spells(hash, a.info_hash@)
                &&& spells(id, a.peer_id.0@)
                &&& tells(port, a.port as int)
                &&& tells(up, a.uploaded as int)
                &&& tells(down, a.downloaded as int)
                &&& tells(left, a.left as int)
                &&& event == match a.event {
                    Some(t) => "&event="@ + t@,
                    None => seq![],
                }
                &&& announce_url_of(url, a) == url + (if exists|i: int|
                    0 <= i < url.len() && url[i] == '?' {
                    "&"@
                } else {
                    "?"@
                }) + "info_hash="@ + hash + "&peer_id="@ + id + "&port="@ + port + "&uploaded="@
                    + up + "&downloaded="@ + down + "&left="@ + left + "&compact=1&numwant=100"@
                    + event
            },
{
    let hash = ascii_chars(percent_encoded(a.info_hash@));
    let id = ascii_chars(percent_encoded(a.peer_id.0@));
    let port = decimal(a.port as nat);
    let up = decimal(a.uploaded as nat);
    let down = decimal(a.downloaded as nat);
    let left = decimal(a.left as nat);
    let event = match a.event {
        Some(t) => "&event="@ + t@,
        None => seq![],
    };
    lemma_spelled(a.info_hash@);
    lemma_spelled(a.peer_id.0@);
    lemma_decimal_value(a.port as nat);
    lemma_decimal_value(a.uploaded as nat);
    lemma_decimal_value(a.downloaded as nat);
    lemma_decimal_value(a.left as nat);
    assert(spells(hash, a.info_hash@) && spells(id, a.peer_id.0@));
    assert(tells(port, a.port as int) && tells(up, a.uploaded as int) && tells(
        down,
        a.downloaded as int,
    ) && tells(left, a.left as int));
    let base = url + (if exists|i: int| 0 <= i < url.len() && url[i] == '?' {
        "&"@
    } else {
        "?"@
    }) + "info_hash="@ + hash + "&peer_id="@ + id + "&port="@ + port + "&uploaded="@ + up
        + "&downloaded="@ + down + "&left="@ + left + "&compact=1&numwant=100"@;
    assert(event.len() >= 0);
    assert(announce_url_of(url, a) =~= base + event);
}

/// What is wrapped in a URL may stand for itself only if it is a letter, a
/// digit, a hyphen, an underscore, a dot or a tilde.
pub proof fn law_unreserved(b: u8)
    ensures
        unreserved(b) <==> (('0' <= (b as char) <= '9') || ('A' <= (b as char) <= 'Z') || ('a' <= (
        b as char) <= 'z') || b as char == '-' || b as char == '_' || b as char == '.' || b as char
            == '~'),
{
}

/// The next announcement comes no sooner than the tracker wishes and allows,
/// and no later than one of the two.
pub proof fn law_wait(interval: u64, least: Option<u64>)
    ensures
        wait_of(interval, least) >= interval,
        least matches Some(m) ==> wait_of(interval, least) >= m,
        wait_of(interval, least) == interval || least == Some(wait_of(interval, least)),
{
}

/// A tracker is spoken to as the start of its address says.
pub proof fn law_protocols(rest: Seq<char>)
    ensures
        protocol_of("http://"@ + rest) == Some(Protocol::Http),
        protocol_of("https://"@ + rest) == Some(Protocol::Http),
        protocol_of("udp://"@ + rest) == Some(Protocol::Udp),
{
    reveal_strlit("http://");
    reveal_strlit("https://");
    reveal_strlit("udp://");
    assert(("http://"@ + rest).take(7) =~= "http://"@);
    assert(("https://"@ + rest).take(8) =~= "https://"@);
    assert(("udp://"@ + rest).take(6) =~= "udp://"@);
    assert(("udp://"@ + rest)[0] == 'u');
    let u = "udp://"@ + rest;
    if "http://"@.is_prefix_of(u) {
        assert(u[0] == "http://"@[0]);
    }
    if "https://"@.is_prefix_of(u) {
        assert(u[0] == "https://"@[0]);
    }
}

/// A tracker is spoken to at the host and the port of its address; at the local
/// host and at port eighty where the address has none.
pub proof fn law_endpoint(host: Seq<char>, port: u16)
    ensures
        exists|d: Seq<char>| #[trigger]
            tells(d, port as int) && endpoint_of((Some(host), Some(port))) == host + ":"@ + d,
        endpoint_of((None, Some(port))) == endpoint_of((Some("127.0.0.1"@), Some(port))),
        endpoint_of((Some(host), None)) == endpoint_of((Some(host), Some(80u16))),
{
    let d = decimal(port as nat);
    lemma_decimal_value(port as nat);
    assert(tells(d, port as int));
}

} // verus!

//! Trackers that are spoken to by HTTP.

use crate::bencode::grammar::{parsed, reports, Fault};
use crate::bencode::{field, lookup, models, Bencode, BencodeParser, BencodeValue};
use crate::error::TorrentError;
use crate::metainfo::{as_unsigned, text_field, text_of, unsigned};
use crate::net::{compact_v4, Ipv4Addr, SocketAddrV4};
use crate::text::{
    all_digits, ascii_chars, ascii_string, chars_of, decimal, decimal_string, digits_value, is_ascii_bytes,
    is_digit, joined,
};
use crate::tracker::{Announce, TrackerResponse};
use crate::types::opt_text;
use vstd::prelude::*;
use vstd::string::*;

verus! {

/// A byte that stands for itself in a URL.
pub open spec fn unreserved(b: u8) -> bool {
    ||| 48 <= b <= 57
    ||| 65 <= b <= 90
    ||| 97 <= b <= 122
    ||| b == 45
    ||| b == 95
    ||| b == 46
    ||| b == 126
}

/// The upper-case hexadecimal digit of a value below sixteen.
pub open spec fn upper_hex(n: int) -> u8 {
    if n < 10 {
        (48 + n) as u8
    } else {
        (55 + n) as u8
    }
}

/// Bytes in percent encoding: `%` and two upper-case hexadecimal digits for
/// every byte that does not stand for itself.
pub open spec fn percent_encoded(b: Seq<u8>) -> Seq<u8>
    decreases b.len(),
{
    if b.len() == 0 {
        seq![]
    } else if unreserved(b.last()) {
        percent_encoded(b.drop_last()).push(b.last())
    } else {
        percent_encoded(b.drop_last()) + seq![
            37u8,
            upper_hex(b.last() as int / 16),
            upper_hex(b.last() as int % 16),
        ]
    }
}

/// One byte in percent encoding.
pub open spec fn percent_one(b: u8) -> Seq<u8> {
    if unreserved(b) {
        seq![b]
    } else {
        seq![37u8, upper_hex(b as int / 16), upper_hex(b as int % 16)]
    }
}

proof fn lemma_percent_front(b: Seq<u8>)
    requires
        b.len() > 0,
    ensures
        percent_encoded(b) == percent_one(b[0]) + percent_encoded(b.skip(1)),
    decreases b.len(),
{
    if b.len() == 1 {
        assert(b.drop_last() =~= seq![]);
        assert(b.skip(1) =~= seq![]);
        assert(percent_encoded(b) =~= percent_one(b[0]) + percent_encoded(b.skip(1)));
    } else {
        lemma_percent_front(b.drop_last());
        assert(b.drop_last().skip(1) =~= b.skip(1).drop_last());
        assert(percent_encoded(b) =~= percent_encoded(b.drop_last()) + percent_one(b.last()));
        assert(percent_encoded(b.skip(1)) =~= percent_encoded(b.skip(1).drop_last())
            + percent_one(b.last()));
        assert(percent_encoded(b) =~= percent_one(b[0]) + percent_encoded(b.skip(1)));
    }
}

/// A tracker that decodes percent-encoded bytes finds the bytes.
pub proof fn law_percent_round_trip(b: Seq<u8>)
    ensures
        crate::outside::percent_decoded(percent_encoded(b)) == b,
    decreases b.len(),
{
    if b.len() == 0 {
        assert(b =~= seq![]);
    } else {
        lemma_percent_front(b);
        law_percent_round_trip(b.skip(1));
        let rest = percent_encoded(b.skip(1));
        let s = percent_encoded(b);
        assert(b =~= seq![b[0]] + b.skip(1));
        if unreserved(b[0]) {
            assert(s.skip(1) =~= rest);
        } else {
            let hi = upper_hex(b[0] as int / 16);
            let lo = upper_hex(b[0] as int % 16);
            assert(s[0] == 37 && s[1] == hi && s[2] == lo);
            assert(s.skip(3) =~= rest);
            assert(crate::outside::hex_value(hi) == b[0] as int / 16);
            assert(crate::outside::hex_value(lo) == b[0] as int % 16);
        }
    }
}

fn upper_digit(n: u8) -> (r: u8)
    requires
        n < 16,
    ensures
        r == upper_hex(n as int),
        r < 128,
{
    if n < 10 {
        48 + n
    } else {
        55 + n
    }
}

/// Writes bytes in percent encoding.
pub fn urlencoding_bytes(bytes: &[u8]) -> (r: String)
    ensures
        r@ == ascii_chars(percent_encoded(bytes@)),
{
    let mut out: Vec<u8> = Vec::new();
    let mut i: usize = 0;
    assert(bytes@.take(0) =~= seq![]);
    while i < bytes.len()
        invariant
            i <= bytes.len(),
            out@ == percent_encoded(bytes@.take(i as int)),
            is_ascii_bytes(out@),
        decreases bytes.len() - i,
    {
        let b: u8 = bytes[i];
        proof {
            let t = bytes@.take(i + 1);
            assert(t.drop_last() =~= bytes@.take(i as int));
            assert(t.last() == b);
        }
        let ghost before = out@;
        if (48 <= b && b <= 57) || (65 <= b && b <= 90) || (97 <= b && b <= 122) || b == 45 || b
            == 95 || b == 46 || b == 126 {
            out.push(b);
        } else {
            out.push(37);
            out.push(upper_digit(b / 16));
            out.push(upper_digit(b % 16));
            assert(out@ =~= before + seq![
                37u8,
                upper_hex(b as int / 16),
                upper_hex(b as int % 16),
            ]);
        }
        i += 1;
    }
    assert(bytes@.take(i as int) =~= bytes@);
    ascii_string(out.as_slice())
}

/// The address that an announcement is sent to.
pub open spec fn announce_url_of(url: Seq<char>, a: Announce) -> Seq<char> {
    let sep = if url.contains('?') {
        "&"@
    } else {
        "?"@
    };
    let base = url + sep + "info_hash="@ + ascii_chars(percent_encoded(a.info_hash@)) + "&peer_id="@
        + ascii_chars(percent_encoded(a.peer_id.0@)) + "&port="@ + decimal(a.port as nat)
        + "&uploaded="@ + decimal(a.uploaded as nat) + "&downloaded="@ + decimal(
        a.downloaded as nat,
    ) + "&left="@ + decimal(a.left as nat) + "&compact=1&numwant=100"@;
    match a.event {
        None => base,
        Some(e) => base + "&event="@ + e@,
    }
}

/// Builds the address that an announcement is sent to.
pub fn announce_url(url: &str, a: &Announce) -> (r: String)
    ensures
        r@ == announce_url_of(url@, *a),
{
    let chars = chars_of(url);
    let has_query: bool = crate::text::find_char(chars.as_slice(), 0, '?') < chars.len();
    proof {
        crate::text::lemma_char_index(url@, 0, '?');
    }
    let mut out = joined(
        url,
        if has_query {
            "&"
        } else {
            "?"
        },
    );
    out.append("info_hash=");
    out.append(urlencoding_bytes(a.info_hash.0.as_slice()).as_str());
    out.append("&peer_id=");
    out.append(urlencoding_bytes(a.peer_id.0.as_slice()).as_str());
    out.append("&port=");
    out.append(decimal_string(a.port as u64).as_str());
    out.append("&uploaded=");
    out.append(decimal_string(a.uploaded).as_str());
    out.append("&downloaded=");
    out.append(decimal_string(a.downloaded).as_str());
    out.append("&left=");
    out.append(decimal_string(a.left).as_str());
    out.append("&compact=1&numwant=100");
    if let Some(event) = &a.event {
        out.append("&event=");
        out.append(event.as_str());
    }
    out
}

/// The number that an octet of a dotted address writes: one to three digits
/// without leading zeros, up to 255.
pub open spec fn octet_value(s: Seq<char>) -> Option<int> {
    if all_digits(s) && s.len() <= 3 && (s.len() > 1 ==> s[0] != '0') && digits_value(s) <= 255 {
        Some(digits_value(s))
    } else {
        None
    }
}

/// The address that four octets separated by dots write.
pub open spec fn dotted_address(s: Seq<char>) -> Option<Ipv4Addr> {
    let a = crate::text::char_index(s, 0, '.');
    let b = crate::text::char_index(s, a + 1, '.');
    let c = crate::text::char_index(s, b + 1, '.');
    if a < s.len() && b < s.len() && c < s.len() {
        match (
            octet_value(s.subrange(0, a)),
            octet_value(s.subrange(a + 1, b)),
            octet_value(s.subrange(b + 1, c)),
            octet_value(s.subrange(c + 1, s.len() as int)),
        ) {
            (Some(w), Some(x), Some(y), Some(z)) => Some(
                Ipv4Addr {
                    bits: crate::bytes::be_value(seq![w as u8, x as u8, y as u8, z as u8]) as u32,
                },
            ),
            _ => None,
        }
    } else {
        None
    }
}

fn read_octet(s: &[char], start: usize, end: usize) -> (r: Option<u8>)
    requires
        start <= end <= s.len(),
    ensures
        match r {
            Some(v) => octet_value(s@.subrange(start as int, end as int)) == Some(v as int),
            None => octet_value(s@.subrange(start as int, end as int)) is None,
        },
{
    let ghost part = s@.subrange(start as int, end as int);
    let n: usize = end - start;
    if n == 0 || n > 3 {
        return None;
    }
    if n > 1 && s[start] == '0' {
        assert(part[0] == '0');
        return None;
    }
    let mut v: u32 = 0;
    let mut i: usize = start;
    assert(part.take(0) =~= seq![]);
    while i < end
        invariant
            start <= i <= end <= s.len(),
            end - start == n <= 3,
            n > 0,
            part == s@.subrange(start as int, end as int),
            forall|k: int| 0 <= k < i - start ==> is_digit(#[trigger] part[k]),
            v == digits_value(part.take(i - start)),
            i - start == 0 ==> v == 0,
            i - start == 1 ==> v < 10,
            i - start == 2 ==> v < 100,
            i - start == 3 ==> v < 1000,
        decreases end - i,
    {
        let c: char = s[i];
        assert(part[i - start] == c);
        if c < '0' || c > '9' {
            assert(!is_digit(part[i - start]));
            return None;
        }
        proof {
            let t = part.take(i - start + 1);
            assert(t.drop_last() =~= part.take(i - start));
            assert(t.last() == c);
        }
        v = 10 * v + (c as u32 - '0' as u32);
        i += 1;
    }
    assert(part.take(n as int) =~= part);
    if v <= 255 {
        Some(v as u8)
    } else {
        None
    }
}

/// Reads an address written as four octets separated by dots.
pub fn parse_dotted(text: &str) -> (r: Option<Ipv4Addr>)
    ensures
        r == dotted_address(text@),
{
    let chars = chars_of(text);
    let s = chars.as_slice();
    let n: usize = chars.len();
    let a: usize = crate::text::find_char(s, 0, '.');
    if a >= n {
        return None;
    }
    let b: usize = crate::text::find_char(s, a + 1, '.');
    if b >= n {
        return None;
    }
    let c: usize = crate::text::find_char(s, b + 1, '.');
    if c >= n {
        return None;
    }
    match (
        read_octet(s, 0, a),
        read_octet(s, a + 1, b),
        read_octet(s, b + 1, c),
        read_octet(s, c + 1, n),
    ) {
        (Some(w), Some(x), Some(y), Some(z)) => Some(Ipv4Addr::new(w, x, y, z)),
        _ => None,
    }
}

/// All addresses that the first `n` groups of six bytes stand for.
pub open spec fn all_peers_in(bytes: Seq<u8>, n: int) -> Seq<SocketAddrV4>
    decreases n,
{
    if n <= 0 {
        seq![]
    } else {
        all_peers_in(bytes, n - 1).push(compact_v4(bytes.subrange(6 * (n - 1), 6 * n)))
    }
}

/// Reads all addresses from their compact forms.
pub fn read_all_peers(bytes: &[u8]) -> (r: Vec<SocketAddrV4>)
    ensures
        r@ == all_peers_in(bytes@, bytes@.len() as int / 6),
{
    let mut out: Vec<SocketAddrV4> = Vec::new();
    let mut pos: usize = 0;
    let ghost mut n: int = 0;
    while bytes.len() - pos >= 6
        invariant
            pos <= bytes.len(),
            pos == 6 * n,
            out@ == all_peers_in(bytes@, n),
        decreases bytes.len() - pos,
    {
        out.push(SocketAddrV4::from_compact(vstd::slice::slice_subrange(bytes, pos, pos + 6)));
        pos += 6;
        proof {
            n = n + 1;
        }
    }
    out
}

/// The address that an entry of a peer list gives, if it is a dictionary with
/// a dotted address (by default all zeros).
pub open spec fn listed_peer(b: Bencode) -> Option<SocketAddrV4> {
    match b {
        Bencode::Dict(e) => {
            let ip = match text_field(e, "ip"@) {
                Some(t) => t,
                None => "0.0.0.0"@,
            };
            let port = match lookup(e, "port"@) {
                Some(Bencode::Integer(i)) => (i % 65536) as u16,
                _ => 0,
            };
            match dotted_address(ip) {
                Some(a) => Some(SocketAddrV4 { ip: a, port }),
                None => None,
            }
        },
        _ => None,
    }
}

/// The addresses that a peer list gives.
pub open spec fn listed_peers(l: Seq<Bencode>) -> Seq<SocketAddrV4>
    decreases l.len(),
{
    if l.len() == 0 {
        seq![]
    } else {
        match listed_peer(l.last()) {
            Some(a) => listed_peers(l.drop_last()).push(a),
            None => listed_peers(l.drop_last()),
        }
    }
}

/// The peers that a tracker's answer gives, in either form.
pub open spec fn answered_peers(b: Bencode) -> Result<Seq<SocketAddrV4>, Seq<char>> {
    match field(b, "peers"@) {
        None => Err("Missing peers"@),
        Some(Bencode::Bytes(bytes)) => Ok(all_peers_in(bytes, bytes.len() as int / 6)),
        Some(Bencode::List(l)) => Ok(listed_peers(l)),
        Some(_) => Err("Invalid peers format"@),
    }
}

/// The unsigned number bound to a key.
pub open spec fn number_field(b: Bencode, key: Seq<char>) -> Option<u64> {
    match field(b, key) {
        Some(Bencode::Integer(i)) => Some(as_unsigned(i) as u64),
        _ => None,
    }
}

/// What a tracker's answer says.
pub struct AnswerModel {
    pub interval: u64,
    pub min_interval: Option<u64>,
    pub peers: Seq<SocketAddrV4>,
    pub seeders: Option<u64>,
    pub leechers: Option<u64>,
    pub warning: Option<Seq<char>>,
}

impl View for TrackerResponse {
    type V = AnswerModel;

    open spec fn view(&self) -> AnswerModel {
        AnswerModel {
            interval: self.interval,
            min_interval: self.min_interval,
            peers: self.peers@,
            seeders: self.seeders,
            leechers: self.leechers,
            warning: opt_text(self.warning),
        }
    }
}

/// Why there is no answer.
pub enum AnswerFault {
    Bencode(Fault),
    Message(Seq<char>),
}

/// What the body of a tracker's answer says.
pub open spec fn answer_of(body: Seq<u8>) -> Result<AnswerModel, AnswerFault> {
    match parsed(body) {
        Err(f) => Err(AnswerFault::Bencode(f)),
        Ok(b) => match text_of_field(b, "failure reason"@) {
            Some(m) => Err(AnswerFault::Message(m)),
            None => match answered_peers(b) {
                Err(m) => Err(AnswerFault::Message(m)),
                Ok(peers) => Ok(
                    AnswerModel {
                        interval: match number_field(b, "interval"@) {
                            Some(i) => i,
                            None => 1800,
                        },
                        min_interval: number_field(b, "min interval"@),
                        peers,
                        seeders: number_field(b, "complete"@),
                        leechers: number_field(b, "incomplete"@),
                        warning: text_of_field(b, "warning message"@),
                    },
                ),
            },
        },
    }
}

/// The text bound to a key.
pub open spec fn text_of_field(b: Bencode, key: Seq<char>) -> Option<Seq<char>> {
    match field(b, key) {
        Some(v) => text_of(v),
        None => None,
    }
}

fn get_number(v: &BencodeValue, key: &str) -> (r: Option<u64>)
    ensures
        r == number_field(v@, key@),
{
    match v.dict_get(key) {
        Some(x) => match x.as_integer() {
            Some(i) => Some(unsigned(i)),
            None => None,
        },
        None => None,
    }
}

fn get_string(v: &BencodeValue, key: &str) -> (r: Option<String>)
    ensures
        opt_text(r) == text_of_field(v@, key@),
{
    match v.dict_get(key) {
        Some(x) => match x.as_string() {
            Some(s) => Some(s.to_string()),
            None => None,
        },
        None => None,
    }
}

fn read_listed(item: &BencodeValue) -> (r: Option<SocketAddrV4>)
    ensures
        r == listed_peer(item@),
{
    let dict = match item.as_dict() {
        Some(d) => d,
        None => {
            return None;
        },
    };
    let ip = match dict.get("ip") {
        Some(v) => match v.as_string() {
            Some(s) => s,
            None => "0.0.0.0",
        },
        None => "0.0.0.0",
    };
    let port: u16 = match dict.get("port") {
        Some(v) => match v.as_integer() {
            Some(i) => (unsigned(i) % 65536) as u16,
            None => 0,
        },
        None => 0,
    };
    match parse_dotted(ip) {
        Some(a) => Some(SocketAddrV4 { ip: a, port }),
        None => None,
    }
}

/// Reads the peers of a tracker's answer.
pub fn parse_peers(response: &BencodeValue) -> (r: Result<Vec<SocketAddrV4>, TorrentError>)
    ensures
        match (r, answered_peers(response@)) {
            (Ok(v), Ok(s)) => v@ == s,
            (Err(TorrentError::Tracker(m)), Err(s)) => m@ == s,
            _ => false,
        },
{
    let peers = match response.dict_get("peers") {
        Some(v) => v,
        None => {
            return Err(TorrentError::Tracker("Missing peers".to_string()));
        },
    };
    if let Some(bytes) = peers.as_bytes() {
        return Ok(read_all_peers(bytes));
    }
    if let Some(list) = peers.as_list() {
        let ghost all = models(list@);
        let mut out: Vec<SocketAddrV4> = Vec::new();
        let mut i: usize = 0;
        assert(all.take(0) =~= seq![]);
        while i < list.len()
            invariant
                i <= list.len(),
                all == models(list@),
                out@ == listed_peers(all.take(i as int)),
            decreases list.len() - i,
        {
            proof {
                let t = all.take(i + 1);
                assert(t.drop_last() =~= all.take(i as int));
                assert(t.last() == list@[i as int]@);
            }
            if let Some(a) = read_listed(&list[i]) {
                out.push(a);
            }
            i += 1;
        }
        assert(all.take(i as int) =~= all);
        return Ok(out);
    }
    Err(TorrentError::Tracker("Invalid peers format".to_string()))
}

/// Reads the body of a tracker's answer.
pub fn parse_answer(body: &[u8]) -> (r: Result<TrackerResponse, TorrentError>)
    ensures
        match (r, answer_of(body@)) {
            (Ok(a), Ok(m)) => a@ == m,
            (Err(e), Err(AnswerFault::Bencode(f))) => reports(e, f),
            (Err(TorrentError::Tracker(t)), Err(AnswerFault::Message(m))) => t@ == m,
            _ => false,
        },
{
    let decoded = match BencodeParser::parse(body) {
        Ok(v) => v,
        Err(e) => {
            return Err(e);
        },
    };
    if let Some(m) = get_string(&decoded, "failure reason") {
        return Err(TorrentError::Tracker(m));
    }
    let interval: u64 = match get_number(&decoded, "interval") {
        Some(i) => i,
        None => 1800,
    };
    let min_interval: Option<u64> = get_number(&decoded, "min interval");
    let seeders: Option<u64> = get_number(&decoded, "complete");
    let leechers: Option<u64> = get_number(&decoded, "incomplete");
    let warning = get_string(&decoded, "warning message");
    match parse_peers(&decoded) {
        Ok(peers) => Ok(
            TrackerResponse { interval, min_interval, peers, seeders, leechers, warning },
        ),
        Err(e) => Err(e),
    }
}

} // verus!

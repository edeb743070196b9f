//! Identifiers, states, magnet links, rate limits and resume data.

use crate::bytes::lex_less;
use crate::error::TorrentError;
use crate::outside::{
    hex_bytes, hex_decode, hex_encode, lemma_hex_round_trip, percent_decode, percent_decoded,
    random_u8, unhex,
};
use crate::text::{char_index, chars_of, find_char, str_equal, to_upper, uppercased};
use vstd::prelude::*;
use vstd::string::*;
use vstd::utf8::{decode_utf8, encode_utf8, valid_utf8};

verus! {

/// The unit in which pieces are requested.
pub const BLOCK_SIZE: u32 = 16384;

/// The first bytes of the peer ids of this client.
pub open spec fn client_prefix() -> Seq<u8> {
    seq![45u8, 82u8, 69u8, 48u8, 49u8, 48u8, 48u8, 45u8]
}

/// Makes an array of twenty bytes.
pub fn array20(v: &[u8]) -> (r: [u8; 20])
    requires
        v.len() == 20,
    ensures
        r@ == v@,
{
    let r = [
        v[0],
        v[1],
        v[2],
        v[3],
        v[4],
        v[5],
        v[6],
        v[7],
        v[8],
        v[9],
        v[10],
        v[11],
        v[12],
        v[13],
        v[14],
        v[15],
        v[16],
        v[17],
        v[18],
        v[19],
    ];
    assert(r@ =~= v@);
    r
}

/// Two arrays with the same bytes are the same array.
pub broadcast proof fn lemma_array20_ext(a: [u8; 20], b: [u8; 20])
    requires
        #[trigger] a@ == #[trigger] b@,
    ensures
        a == b,
{
    assert(a =~= b);
}

/// The identity of a torrent, and of a place in the DHT.
#[derive(Clone, Copy, PartialEq, Eq, Hash, Debug)]
pub struct InfoHash(pub [u8; 20]);

impl View for InfoHash {
    type V = Seq<u8>;

    open spec fn view(&self) -> Seq<u8> {
        self.0@
    }
}

/// The bytewise exclusive or of two byte sequences.
pub open spec fn xor_bytes(a: Seq<u8>, b: Seq<u8>) -> Seq<u8> {
    Seq::new(a.len(), |i: int| a[i] ^ b[i])
}

impl InfoHash {
    /// The bytes.
    pub fn as_bytes(&self) -> (r: &[u8; 20])
        ensures
            *r == self.0,
            r@ == self@,
    {
        &self.0
    }

    /// The hash with the given bytes, if there are twenty.
    pub fn from_bytes(b: &[u8]) -> (r: Option<InfoHash>)
        ensures
            match r {
                Some(h) => h@ == b@,
                None => b@.len() != 20,
            },
    {
        if b.len() == 20 {
            Some(InfoHash(array20(b)))
        } else {
            None
        }
    }

    /// The hash that forty hexadecimal digits write.
    pub fn from_hex(s: &str) -> (r: Option<InfoHash>)
        ensures
            match r {
                Some(h) => unhex(encode_utf8(s@)) == Some(h@),
                None => !(unhex(encode_utf8(s@)) matches Some(b) && b.len() == 20),
            },
    {
        let bytes = match hex_decode(s) {
            Some(b) => b,
            None => {
                return None;
            },
        };
        if bytes.len() != 20 {
            return None;
        }
        Some(InfoHash(array20(bytes.as_slice())))
    }

    /// The hash in hexadecimal.
    pub fn to_hex(&self) -> (r: String)
        ensures
            encode_utf8(r@) == hex_bytes(self@),
    {
        hex_encode(self.0.as_slice())
    }

    /// The distance between two hashes: the exclusive or of their bytes.
    pub fn distance(&self, other: &InfoHash) -> (r: InfoHash)
        ensures
            r@ == xor_bytes(self@, other@),
    {
        let a = &self.0;
        let b = &other.0;
        let mut v: Vec<u8> = Vec::new();
        let mut i: usize = 0;
        while i < 20
            invariant
                i <= 20,
                v@ == xor_bytes(a@, b@).take(i as int),
            decreases 20 - i,
        {
            v.push(a[i] ^ b[i]);
            i += 1;
            assert(v@ =~= xor_bytes(a@, b@).take(i as int));
        }
        assert(v@ =~= xor_bytes(a@, b@));
        InfoHash(array20(v.as_slice()))
    }

    /// Whether two hashes are the same.
    pub fn same(&self, other: &InfoHash) -> (r: bool)
        ensures
            r == (*self == *other),
            r == (self@ == other@),
    {
        proof {
            if self@ == other@ {
                lemma_array20_ext(self.0, other.0);
            }
        }
        crate::bytes::bytes_equal(self.0.as_slice(), other.0.as_slice())
    }

    /// Whether this hash comes before another in byte order.
    pub fn less(&self, other: &InfoHash) -> (r: bool)
        ensures
            r == lex_less(self@, other@),
    {
        crate::bytes::bytes_less(self.0.as_slice(), other.0.as_slice())
    }
}

/// Writing a hash in hexadecimal and reading it back gives the hash: the only
/// hash that the text of `to_hex` can be read as.
pub proof fn law_hex_round_trip(h: InfoHash, text: Seq<char>)
    requires
        encode_utf8(text) == hex_bytes(h@),
    ensures
        unhex(encode_utf8(text)) == Some(h@),
        h@.len() == 20,
{
    lemma_hex_round_trip(h@);
}

/// The distance of a hash to itself is zero, and distances are symmetric.
pub proof fn law_distance(a: InfoHash, b: InfoHash)
    ensures
        xor_bytes(a@, b@) == xor_bytes(b@, a@),
        forall|i: int| 0 <= i < 20 ==> xor_bytes(a@, a@)[i] == 0,
        xor_bytes(xor_bytes(a@, b@), b@) == a@,
{
    assert forall|x: u8, y: u8| #[trigger] (x ^ y) == y ^ x && x ^ x == 0 && (x ^ y) ^ y == x by {
        assert(x ^ y == y ^ x && x ^ x == 0 && (x ^ y) ^ y == x) by (bit_vector);
    }
    assert(xor_bytes(a@, b@) =~= xor_bytes(b@, a@));
    assert forall|i: int| 0 <= i < 20 implies xor_bytes(a@, a@)[i] == 0 by {
        let x = a@[i];
        assert(x ^ x == 0) by (bit_vector);
    }
    assert(xor_bytes(xor_bytes(a@, b@), b@) =~= a@);
}

/// The identity of a peer.
#[derive(Clone, Copy, PartialEq, Eq, Hash, Debug)]
pub struct PeerId(pub [u8; 20]);

impl PeerId {
    /// A new peer id of this client: its prefix and twelve random bytes.
    pub fn generate() -> (r: PeerId)
        ensures
            r.0@.take(8) == client_prefix(),
    {
        let mut tail: Vec<u8> = Vec::new();
        while tail.len() < 12
            invariant
                tail.len() <= 12,
            decreases 12 - tail.len(),
        {
            tail.push(random_u8());
        }
        let id = PeerId::with_tail(tail.as_slice());
        assert(id.0@.take(8) =~= client_prefix());
        id
    }

    /// The peer id of this client with the given last twelve bytes.
    pub fn with_tail(tail: &[u8]) -> (r: PeerId)
        requires
            tail.len() == 12,
        ensures
            r.0@ == client_prefix() + tail@,
    {
        let mut v: Vec<u8> = vec![45u8, 82u8, 69u8, 48u8, 49u8, 48u8, 48u8, 45u8];
        v.extend_from_slice(tail);
        let r = PeerId(array20(v.as_slice()));
        assert(r.0@ =~= client_prefix() + tail@);
        r
    }
}

/// What a torrent is doing.
#[derive(Debug, Clone, Copy, PartialEq, Eq, Structural)]
pub enum TorrentState {
    Checking,
    Downloading,
    Seeding,
    Paused,
    Queued,
    Error,
    Complete,
    FetchingMetadata,
}

impl TorrentState {
    /// The state's name for the user.
    pub open spec fn text(self) -> Seq<char> {
        match self {
            TorrentState::Checking => "Checking"@,
            TorrentState::Downloading => "Downloading"@,
            TorrentState::Seeding => "Seeding"@,
            TorrentState::Paused => "Paused"@,
            TorrentState::Queued => "Queued"@,
            TorrentState::Error => "Error"@,
            TorrentState::Complete => "Complete"@,
            TorrentState::FetchingMetadata => "Fetching Metadata"@,
        }
    }

    /// The state's name for the user.
    pub fn label(&self) -> (r: &'static str)
        ensures
            r@ == self.text(),
    {
        match self {
            TorrentState::Checking => "Checking",
            TorrentState::Downloading => "Downloading",
            TorrentState::Seeding => "Seeding",
            TorrentState::Paused => "Paused",
            TorrentState::Queued => "Queued",
            TorrentState::Error => "Error",
            TorrentState::Complete => "Complete",
            TorrentState::FetchingMetadata => "Fetching Metadata",
        }
    }
}

/// How eagerly a file is downloaded.
#[derive(Debug, Clone, Copy, PartialEq, Eq, Structural)]
pub enum FilePriority {
    Skip,
    Low,
    Normal,
    High,
}

impl Default for FilePriority {
    fn default() -> (r: Self)
        ensures
            r == FilePriority::Normal,
    {
        FilePriority::Normal
    }
}

impl FilePriority {
    /// The priority's name for the user.
    pub open spec fn text(self) -> Seq<char> {
        match self {
            FilePriority::Skip => "Skip"@,
            FilePriority::Low => "Low"@,
            FilePriority::Normal => "Normal"@,
            FilePriority::High => "High"@,
        }
    }

    /// The priority's name for the user.
    pub fn label(&self) -> (r: &'static str)
        ensures
            r@ == self.text(),
    {
        match self {
            FilePriority::Skip => "Skip",
            FilePriority::Low => "Low",
            FilePriority::Normal => "Normal",
            FilePriority::High => "High",
        }
    }
}

/// A magnet link: the torrent's identity and where to look for it.
#[derive(Debug)]
pub struct MagnetLink {
    pub info_hash: InfoHash,
    pub display_name: Option<String>,
    pub trackers: Vec<String>,
    pub web_seeds: Vec<String>,
}

/// What the parameters of a magnet link said so far.
pub struct MagnetParts {
    pub info_hash: Option<Seq<u8>>,
    pub display_name: Option<Seq<char>>,
    pub trackers: Seq<Seq<char>>,
    pub web_seeds: Seq<Seq<char>>,
}

/// The views of strings.
pub open spec fn texts(v: Seq<String>) -> Seq<Seq<char>> {
    Seq::new(v.len(), |i: int| v[i]@)
}

/// The view of an optional string.
pub open spec fn opt_text(s: Option<String>) -> Option<Seq<char>> {
    match s {
        Some(t) => Some(t@),
        None => None,
    }
}

/// The text of a percent-encoded parameter, empty where it is not UTF-8.
pub open spec fn parameter_text(val: Seq<char>) -> Seq<char> {
    let bytes = percent_decoded(encode_utf8(val));
    if valid_utf8(bytes) {
        decode_utf8(bytes)
    } else {
        seq![]
    }
}

/// The value of a base-32 digit.
pub open spec fn base32_value(b: u8) -> Option<int> {
    if 65 <= b <= 90 {
        Some(b - 65)
    } else if 50 <= b <= 55 {
        Some(b - 24)
    } else {
        None
    }
}

/// The bits of base-32 digits, five each, most significant first.
pub open spec fn base32_bits(s: Seq<u8>) -> Seq<u8> {
    Seq::new(
        5 * s.len(),
        |i: int|
            ((base32_value(s[i / 5])->0 / vstd::arithmetic::power2::pow2((4 - i % 5) as nat) as int)
                % 2) as u8,
    )
}

/// The number that bits write, most significant first.
pub open spec fn bits_value(bits: Seq<u8>) -> int
    decreases bits.len(),
{
    if bits.len() == 0 {
        0
    } else {
        2 * bits_value(bits.drop_last()) + bits.last()
    }
}

/// The whole bytes among bits, in order.
pub open spec fn whole_bytes(bits: Seq<u8>) -> Seq<u8> {
    Seq::new(bits.len() / 8, |k: int| bits_value(bits.subrange(8 * k, 8 * k + 8)) as u8)
}

/// The bytes that base-32 text of either case writes; bits of an incomplete
/// last byte are dropped. Nothing if a character is no base-32 digit.
pub open spec fn base32_decoded(s: Seq<char>) -> Option<Seq<u8>> {
    let digits = encode_utf8(uppercased(s));
    if forall|i: int| 0 <= i < digits.len() ==> base32_value(#[trigger] digits[i]) is Some {
        Some(whole_bytes(base32_bits(digits)))
    } else {
        None
    }
}

/// The hash that a decoded `xt` parameter names.
pub open spec fn exact_topic(decoded: Seq<char>) -> Option<Seq<u8>> {
    let prefix = "urn:btih:"@;
    if prefix.is_prefix_of(decoded) {
        let code = decoded.skip(prefix.len() as int);
        let size = encode_utf8(code).len();
        let bytes = if size == 40 {
            unhex(encode_utf8(code))
        } else if size == 32 {
            base32_decoded(code)
        } else {
            None
        };
        match bytes {
            Some(b) if b.len() == 20 => Some(b),
            _ => None,
        }
    } else {
        None
    }
}

/// What one `key=value` parameter adds. Unknown keys add nothing; a later
/// name or valid hash replaces an earlier one.
pub open spec fn with_parameter(parts: MagnetParts, pair: Seq<char>) -> MagnetParts {
    let eq = char_index(pair, 0, '=');
    let key = pair.take(eq);
    let val = if eq < pair.len() {
        pair.skip(eq + 1)
    } else {
        seq![]
    };
    let decoded = parameter_text(val);
    if key == "xt"@ {
        match exact_topic(decoded) {
            Some(h) => MagnetParts { info_hash: Some(h), ..parts },
            None => parts,
        }
    } else if key == "dn"@ {
        MagnetParts { display_name: Some(decoded), ..parts }
    } else if key == "tr"@ {
        MagnetParts { trackers: parts.trackers.push(decoded), ..parts }
    } else if key == "ws"@ {
        MagnetParts { web_seeds: parts.web_seeds.push(decoded), ..parts }
    } else {
        parts
    }
}

/// What the parameters from `from` on add, separated by `&`.
pub open spec fn with_parameters(parts: MagnetParts, query: Seq<char>, from: int) -> MagnetParts
    decreases query.len() - from,
{
    let end = char_index(query, from, '&');
    if from < 0 || end < from || end >= query.len() {
        with_parameter(parts, query.subrange(from, query.len() as int))
    } else {
        with_parameters(with_parameter(parts, query.subrange(from, end)), query, end + 1)
    }
}

/// What a magnet link says; nothing if the text is no magnet link.
pub open spec fn magnet_parts(uri: Seq<char>) -> Option<MagnetParts> {
    if "magnet:?"@.is_prefix_of(uri) {
        Some(
            with_parameters(
                MagnetParts {
                    info_hash: None,
                    display_name: None,
                    trackers: seq![],
                    web_seeds: seq![],
                },
                uri,
                8,
            ),
        )
    } else {
        None
    }
}

/// What reading a magnet link gives.
pub open spec fn read_as(uri: Seq<char>, r: Result<MagnetLink, TorrentError>) -> bool {
    match magnet_parts(uri) {
        None => r matches Err(TorrentError::MagnetParse(m)) && m@ == "Not a magnet URI"@,
        Some(parts) => match parts.info_hash {
            None => r matches Err(TorrentError::MagnetParse(m)) && m@
                == "No valid info hash found"@,
            Some(h) => r matches Ok(link) && link.info_hash@ == h && opt_text(link.display_name)
                == parts.display_name && texts(link.trackers@) == parts.trackers && texts(
                link.web_seeds@,
            ) == parts.web_seeds,
        },
    }
}

/// Whether a text starts with another.
pub fn starts_with(s: &[char], prefix: &[char]) -> (r: bool)
    ensures
        r == prefix@.is_prefix_of(s@),
{
    if prefix.len() > s.len() {
        return false;
    }
    let mut i: usize = 0;
    while i < prefix.len()
        invariant
            i <= prefix.len() <= s.len(),
            forall|k: int| 0 <= k < i ==> prefix@[k] == s@[k],
        decreases prefix.len() - i,
    {
        if prefix[i] != s[i] {
            assert(prefix@.is_prefix_of(s@) ==> s@.take(prefix@.len() as int)[i as int]
                == prefix@[i as int]);
            return false;
        }
        i += 1;
    }
    assert(s@.take(prefix@.len() as int) =~= prefix@);
    true
}

impl MagnetLink {
    /// Reads a magnet link.
    pub fn parse(uri: &str) -> (r: Result<MagnetLink, TorrentError>)
        ensures
            read_as(uri@, r),
    {
        let chars = chars_of(uri);
        let prefix = chars_of("magnet:?");
        proof {
            reveal_strlit("magnet:?");
        }
        if !starts_with(chars.as_slice(), prefix.as_slice()) {
            return Err(TorrentError::MagnetParse("Not a magnet URI".to_string()));
        }
        let mut info_hash: Option<InfoHash> = None;
        let mut display_name: Option<String> = None;
        let mut trackers: Vec<String> = Vec::new();
        let mut web_seeds: Vec<String> = Vec::new();
        let mut from: usize = 8;
        let mut more = true;
        let ghost start = MagnetParts {
            info_hash: None,
            display_name: None,
            trackers: seq![],
            web_seeds: seq![],
        };
        let ghost goal = with_parameters(start, uri@, 8);
        let ghost mut parts = start;
        assert(texts(trackers@) =~= seq![]);
        assert(texts(web_seeds@) =~= seq![]);
        while more
            invariant
                chars@ == uri@,
                8 <= from,
                more ==> from <= chars.len(),
                goal == if more {
                    with_parameters(parts, uri@, from as int)
                } else {
                    parts
                },
                parts.info_hash == (match info_hash {
                    Some(h) => Some(h@),
                    None => None,
                }),
                parts.display_name == opt_text(display_name),
                parts.trackers == texts(trackers@),
                parts.web_seeds == texts(web_seeds@),
            decreases (if more {
                chars.len() + 1 - from
            } else {
                0
            }),
        {
            let end: usize = find_char(chars.as_slice(), from, '&');
            let pair = uri.substring_char(from, end);
            let pair_chars = chars_of(pair);
            let eq: usize = find_char(pair_chars.as_slice(), 0, '=');
            let key = pair.substring_char(0, eq);
            let val = if eq < pair_chars.len() {
                pair.substring_char(eq + 1, pair_chars.len())
            } else {
                ""
            };
            proof {
                reveal_strlit("");
                assert(val@ =~= if eq < pair@.len() {
                    pair@.skip(eq + 1)
                } else {
                    seq![]
                });
                assert(key@ =~= pair@.take(eq as int));
            }
            let decoded = match percent_decode(val) {
                Some(t) => t,
                None => String::new(),
            };
            assert(decoded@ =~= parameter_text(val@));
            let ghost before = parts;
            if str_equal(key, "xt") {
                if let Some(h) = parse_exact_topic(decoded.as_str()) {
                    info_hash = Some(h);
                }
            } else if str_equal(key, "dn") {
                display_name = Some(decoded);
            } else if str_equal(key, "tr") {
                let ghost t = texts(trackers@);
                trackers.push(decoded);
                assert(texts(trackers@) =~= t.push(decoded@));
            } else if str_equal(key, "ws") {
                let ghost t = texts(web_seeds@);
                web_seeds.push(decoded);
                assert(texts(web_seeds@) =~= t.push(decoded@));
            }
            proof {
                parts = with_parameter(before, pair@);
            }
            if end < chars.len() {
                from = end + 1;
            } else {
                more = false;
            }
        }
        match info_hash {
            Some(h) => Ok(MagnetLink { info_hash: h, display_name, trackers, web_seeds }),
            None => Err(TorrentError::MagnetParse("No valid info hash found".to_string())),
        }
    }
}

/// Reads the hash that a decoded `xt` parameter names.
fn parse_exact_topic(decoded: &str) -> (r: Option<InfoHash>)
    ensures
        match r {
            Some(h) => exact_topic(decoded@) == Some(h@),
            None => exact_topic(decoded@) is None,
        },
{
    let chars = chars_of(decoded);
    let prefix = chars_of("urn:btih:");
    if !starts_with(chars.as_slice(), prefix.as_slice()) {
        return None;
    }
    let code = decoded.substring_char(prefix.len(), chars.len());
    assert(code@ =~= decoded@.skip(prefix@.len() as int));
    let size: usize = code.as_bytes().len();
    if size == 40 {
        InfoHash::from_hex(code)
    } else if size == 32 {
        match base32_decode(code) {
            Some(b) => InfoHash::from_bytes(b.as_slice()),
            None => None,
        }
    } else {
        None
    }
}

/// The five bits of one digit.
pub proof fn lemma_base32_group(s: Seq<u8>, i: int, v: int)
    requires
        0 <= i < s.len(),
        base32_value(s[i]) == Some(v),
        0 <= v < 32,
    ensures
        base32_bits(s)[5 * i] == v / 16 % 2,
        base32_bits(s)[5 * i + 1] == v / 8 % 2,
        base32_bits(s)[5 * i + 2] == v / 4 % 2,
        base32_bits(s)[5 * i + 3] == v / 2 % 2,
        base32_bits(s)[5 * i + 4] == v % 2,
{
    vstd::arithmetic::power2::lemma2_to64();
    assert((5 * i) / 5 == i && (5 * i) % 5 == 0);
    assert((5 * i + 1) / 5 == i && (5 * i + 1) % 5 == 1);
    assert((5 * i + 2) / 5 == i && (5 * i + 2) % 5 == 2);
    assert((5 * i + 3) / 5 == i && (5 * i + 3) % 5 == 3);
    assert((5 * i + 4) / 5 == i && (5 * i + 4) % 5 == 4);
    assert(v / 1 == v);
}

/// Decodes base-32 text of either case.
pub fn base32_decode(input: &str) -> (r: Option<Vec<u8>>)
    ensures
        match r {
            Some(v) => base32_decoded(input@) == Some(v@),
            None => base32_decoded(input@) is None,
        },
{
    let upper = to_upper(input);
    let digits = upper.as_str().as_bytes();
    let mut bits: Vec<u8> = Vec::new();
    let mut i: usize = 0;
    while i < digits.len()
        invariant
            i <= digits.len(),
            digits@ == encode_utf8(uppercased(input@)),
            bits@.len() == 5 * i,
            forall|k: int| 0 <= k < i ==> base32_value(#[trigger] digits@[k]) is Some,
            forall|k: int| 0 <= k < bits@.len() ==> #[trigger] bits@[k] == base32_bits(digits@)[k],
            forall|k: int| 0 <= k < bits@.len() ==> 0 <= #[trigger] bits@[k] <= 1,
        decreases digits.len() - i,
    {
        let c: u8 = digits[i];
        let val: u8 = if 65 <= c && c <= 90 {
            c - 65
        } else if 50 <= c && c <= 55 {
            c - 24
        } else {
            return None;
        };
        let ghost before = bits@;
        bits.push(val / 16 % 2);
        bits.push(val / 8 % 2);
        bits.push(val / 4 % 2);
        bits.push(val / 2 % 2);
        bits.push(val % 2);
        proof {
            lemma_base32_group(digits@, i as int, val as int);
            assert forall|k: int| 0 <= k < bits@.len() implies #[trigger] bits@[k] == base32_bits(
                digits@,
            )[k] && bits@[k] <= 1 by {
                if k < before.len() {
                    assert(bits@[k] == before[k]);
                } else {
                    assert(k == 5 * i || k == 5 * i + 1 || k == 5 * i + 2 || k == 5 * i + 3 || k
                        == 5 * i + 4);
                }
            }
        }
        i += 1;
    }
    let ghost all = base32_bits(digits@);
    assert(bits@ =~= all);
    let mut result: Vec<u8> = Vec::new();
    let mut pos: usize = 0;
    while bits.len() - pos >= 8
        invariant
            pos <= bits.len(),
            pos == 8 * result.len(),
            result.len() <= bits.len() / 8,
            bits@ == all,
            forall|k: int| 0 <= k < bits@.len() ==> 0 <= #[trigger] bits@[k] <= 1,
            result@ == whole_bytes(all).take(result.len() as int),
        decreases bits.len() - pos,
    {
        let byte: u8 = byte_of_bits(bits.as_slice(), pos);
        result.push(byte);
        pos += 8;
        assert(result@ =~= whole_bytes(all).take(result.len() as int));
    }
    assert(result@ =~= whole_bytes(all));
    Some(result)
}

/// The byte that eight bits write, most significant first.
fn byte_of_bits(bits: &[u8], pos: usize) -> (r: u8)
    requires
        pos + 8 <= bits.len(),
        forall|k: int| 0 <= k < bits@.len() ==> 0 <= #[trigger] bits@[k] <= 1,
    ensures
        r == bits_value(bits@.subrange(pos as int, pos + 8)),
{
    let r: u8 = 128 * bits[pos] + 64 * bits[pos + 1] + 32 * bits[pos + 2] + 16 * bits[pos + 3] + 8
        * bits[pos + 4] + 4 * bits[pos + 5] + 2 * bits[pos + 6] + bits[pos + 7];
    proof {
        reveal_with_fuel(bits_value, 9);
        let s = bits@.subrange(pos as int, pos + 8);
        assert(s.drop_last() =~= s.take(7));
        assert(s.take(7).drop_last() =~= s.take(6));
        assert(s.take(6).drop_last() =~= s.take(5));
        assert(s.take(5).drop_last() =~= s.take(4));
        assert(s.take(4).drop_last() =~= s.take(3));
        assert(s.take(3).drop_last() =~= s.take(2));
        assert(s.take(2).drop_last() =~= s.take(1));
        assert(s.take(1).drop_last() =~= s.take(0));
        assert(bits_value(s.take(0)) == 0);
    }
    r
}

/// A token bucket. With a rate of zero it never refuses.
#[derive(Debug)]
pub struct RateLimiter {
    max_rate: u64,
    tokens: u64,
}

impl RateLimiter {
    /// The rate in tokens per second.
    pub closed spec fn rate(&self) -> int {
        self.max_rate as int
    }

    /// The tokens at hand.
    pub closed spec fn level(&self) -> int {
        self.tokens as int
    }

    /// How many tokens a bucket of a given rate holds at most.
    pub open spec fn capacity(rate: int) -> int {
        if rate < 4 * BLOCK_SIZE {
            4 * BLOCK_SIZE
        } else {
            rate
        }
    }

    /// A full bucket of the given rate.
    pub fn new(max_rate: u64) -> (r: RateLimiter)
        ensures
            r.rate() == max_rate,
            r.level() == if max_rate == 0 {
                u64::MAX as int
            } else {
                Self::capacity(max_rate as int)
            },
    {
        let burst: u64 = if max_rate == 0 {
            u64::MAX
        } else {
            Self::cap(max_rate)
        };
        RateLimiter { max_rate, tokens: burst }
    }

    fn cap(rate: u64) -> (r: u64)
        ensures
            r == Self::capacity(rate as int),
    {
        if rate < 65536 {
            65536
        } else {
            rate
        }
    }

    /// Changes the rate; the tokens at hand stay.
    pub fn set_rate(&mut self, rate: u64)
        ensures
            final(self).rate() == rate,
            final(self).level() == old(self).level(),
    {
        self.max_rate = rate;
    }

    /// Adds tokens that accrued since the last call, up to the capacity.
    pub fn refill(&mut self, accrued: u64)
        ensures
            final(self).rate() == old(self).rate(),
            final(self).level() == if accrued == 0 {
                old(self).level()
            } else if old(self).level() + accrued < Self::capacity(old(self).rate()) {
                old(self).level() + accrued
            } else {
                Self::capacity(old(self).rate())
            },
    {
        if accrued > 0 {
            let cap: u64 = Self::cap(self.max_rate);
            let sum: u64 = self.tokens.saturating_add(accrued);
            self.tokens = if sum < cap {
                sum
            } else {
                cap
            };
        }
    }

    /// Takes `amount` tokens if they are at hand after `accrued` tokens were
    /// added. Without a limit everything is granted and nothing changes.
    pub fn try_consume(&mut self, amount: u64, accrued: u64) -> (r: bool)
        ensures
            final(self).rate() == old(self).rate(),
            old(self).rate() == 0 ==> r && *final(self) == *old(self),
            old(self).rate() > 0 ==> {
                let filled = if accrued == 0 {
                    old(self).level()
                } else if old(self).level() + accrued < Self::capacity(old(self).rate()) {
                    old(self).level() + accrued
                } else {
                    Self::capacity(old(self).rate())
                };
                &&& r == (filled >= amount)
                &&& final(self).level() == if r {
                    filled - amount
                } else {
                    filled
                }
            },
    {
        if self.max_rate == 0 {
            return true;
        }
        self.refill(accrued);
        if self.tokens >= amount {
            self.tokens = self.tokens - amount;
            true
        } else {
            false
        }
    }
}

/// Whether a torrent was running when its state was saved.
#[derive(Debug, Clone, Copy, PartialEq, Eq, Structural)]
pub enum PrevState {
    Running,
    Paused,
}

/// What is kept of a torrent between runs.
#[derive(Debug)]
pub struct ResumeData {
    pub info_hash: String,
    pub have_pieces: Vec<bool>,
    pub downloaded: u64,
    pub uploaded: u64,
    pub file_priorities: Vec<FilePriority>,
    pub added_time: i64,
    pub completed_time: Option<i64>,
    pub torrent_bytes: Option<Vec<u8>>,
    pub prev_state: PrevState,
}

} // verus!

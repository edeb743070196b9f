//! What a magnet link says.

use crate::error::TorrentError;
use crate::laws::number;
use crate::outside::{hex_bytes, hex_digit, is_hex_digit, lemma_hex_round_trip, percent_decoded, unhex};
use crate::text::{ascii_chars, ascii_upper, char_index, is_ascii_bytes, lemma_ascii_utf8, lemma_char_index};
use crate::types::{
    base32_bits, base32_decoded, base32_value, bits_value, exact_topic, magnet_parts, opt_text,
    parameter_text, read_as, texts, whole_bytes, with_parameter, with_parameters, MagnetLink,
    MagnetParts,
};
use vstd::prelude::*;
use vstd::utf8::{decode_utf8, encode_utf8, valid_utf8};

verus! {

/// The value of a hexadecimal digit of either case; negative for another
/// character.
pub open spec fn hex_of(c: char) -> int {
    if '0' <= c <= '9' {
        c as int - '0' as int
    } else if 'a' <= c <= 'f' {
        10 + (c as int - 'a' as int)
    } else if 'A' <= c <= 'F' {
        10 + (c as int - 'A' as int)
    } else {
        -1
    }
}

/// Forty digits write twenty bytes, two for each, the higher half first.
pub open spec fn writes_hash(code: Seq<char>, h: Seq<u8>) -> bool {
    &&& code.len() == 40 && h.len() == 20
    &&& forall|i: int| 0 <= i < 40 ==> hex_of(#[trigger] code[i]) >= 0
    &&& forall|i: int|
        0 <= i < 20 ==> (#[trigger] h[i]) == 16 * hex_of(code[2 * i]) + hex_of(code[2 * i + 1])
}

/// Nothing but ASCII characters, of which none ends a parameter or stands for
/// another.
spec fn plain(s: Seq<char>) -> bool {
    forall|i: int|
        0 <= i < s.len() ==> 0 <= (#[trigger] s[i]) as int <= 127 && s[i] != '&' && s[i] != '%'
}

spec fn codes(s: Seq<char>) -> Seq<u8> {
    Seq::new(s.len(), |i: int| s[i] as u8)
}

proof fn lemma_no_escapes(b: Seq<u8>)
    requires
        forall|i: int| 0 <= i < b.len() ==> #[trigger] b[i] != 37,
    ensures
        percent_decoded(b) == b,
    decreases b.len(),
{
    if b.len() > 0 {
        assert forall|i: int| 0 <= i < b.skip(1).len() implies #[trigger] b.skip(1)[i] != 37 by {
            assert(b.skip(1)[i] == b[i + 1]);
        }
        assert(b[0] != 37);
        lemma_no_escapes(b.skip(1));
        assert(seq![b[0]] + b.skip(1) =~= b);
    } else {
        assert(b =~= seq![]);
    }
}

proof fn lemma_plain(s: Seq<char>)
    requires
        plain(s),
    ensures
        encode_utf8(s) == codes(s),
        parameter_text(s) == s,
{
    let b = codes(s);
    assert forall|i: int| 0 <= i < b.len() implies #[trigger] b[i] < 128 && b[i] != 37 by {
        assert(0 <= s[i] as int <= 127);
    }
    assert(ascii_chars(b) =~= s);
    lemma_ascii_utf8(b);
    lemma_no_escapes(b);
}

/// A pair of a key and a value is taken apart at the first equals sign.
proof fn lemma_pair(key: Seq<char>, val: Seq<char>)
    requires
        !key.contains('='),
    ensures
        char_index(key + seq!['='] + val, 0, '=') == key.len(),
        (key + seq!['='] + val).take(key.len() as int) == key,
        (key + seq!['='] + val).skip(key.len() as int + 1) == val,
{
    let s = key + seq!['='] + val;
    lemma_first_at(s, 0, key.len() as int, '=');
    assert(s.take(key.len() as int) =~= key);
    assert(s.skip(key.len() as int + 1) =~= val);
}

proof fn lemma_first_at(s: Seq<char>, from: int, at: int, c: char)
    requires
        0 <= from <= at <= s.len(),
        forall|i: int| from <= i < at ==> s[i] != c,
        at < s.len() ==> s[at] == c,
    ensures
        char_index(s, from, c) == at,
    decreases at - from,
{
    if from < at {
        lemma_first_at(s, from + 1, at, c);
    }
}

/// A parameter at the end is taken up last.
proof fn lemma_appended(parts: MagnetParts, uri: Seq<char>, pair: Seq<char>, from: int)
    requires
        0 <= from <= uri.len(),
        !pair.contains('&'),
    ensures
        with_parameters(parts, uri + seq!['&'] + pair, from) == with_parameter(
            with_parameters(parts, uri, from),
            pair,
        ),
    decreases uri.len() - from,
{
    let all = uri + seq!['&'] + pair;
    lemma_char_index(uri, from, '&');
    let end = char_index(uri, from, '&');
    lemma_index_stays(uri, seq!['&'] + pair, from);
    assert(all =~= uri + (seq!['&'] + pair));
    assert(char_index(all, from, '&') == end);
    assert(all.subrange(from, end) =~= uri.subrange(from, end));
    if end < uri.len() {
        lemma_appended(with_parameter(parts, uri.subrange(from, end)), uri, pair, end + 1);
    } else {
        assert(uri.subrange(from, end) =~= uri.subrange(from, uri.len() as int));
        let rest = uri.len() as int + 1;
        assert forall|i: int| rest <= i < all.len() implies all[i] != '&' by {
            assert(all[i] == pair[i - rest]);
        }
        lemma_first_at(all, rest, all.len() as int, '&');
        assert(all.subrange(rest, all.len() as int) =~= pair);
        let done = with_parameter(parts, uri.subrange(from, end));
        assert(with_parameters(done, all, rest) == with_parameter(
            done,
            all.subrange(rest, all.len() as int),
        ));
    }
}

proof fn lemma_index_stays(uri: Seq<char>, more: Seq<char>, from: int)
    requires
        0 <= from <= uri.len(),
        more.len() > 0,
        more[0] == '&',
    ensures
        char_index(uri + more, from, '&') == char_index(uri, from, '&'),
    decreases uri.len() - from,
{
    let all = uri + more;
    if from < uri.len() {
        assert(all[from] == uri[from]);
        if uri[from] != '&' {
            lemma_index_stays(uri, more, from + 1);
        }
    } else {
        assert(all[from] == more[0]);
    }
}

/// The topic of a torrent in hexadecimal.
proof fn lemma_topic(code: Seq<char>, h: Seq<u8>)
    requires
        writes_hash(code, h),
    ensures
        plain(code),
        exact_topic("urn:btih:"@ + code) == Some(h),
{
    reveal_strlit("urn:btih:");
    let t = "urn:btih:"@ + code;
    assert(t.skip(9) =~= code);
    assert(t.take(9) =~= "urn:btih:"@);
    assert forall|i: int| 0 <= i < code.len() implies 0 <= (#[trigger] code[i]) as int <= 127
        && code[i] != '&' && code[i] != '%' by {
        assert(hex_of(code[i]) >= 0);
    }
    lemma_plain(code);
    let b = codes(code);
    assert forall|i: int| 0 <= i < b.len() implies is_hex_digit(#[trigger] b[i])
        && crate::outside::hex_value(b[i]) == hex_of(code[i]) by {
        assert(hex_of(code[i]) >= 0);
    }
    assert(unhex(b) is Some);
    let u = unhex(b)->0;
    assert(u.len() == 20);
    assert forall|i: int| 0 <= i < 20 implies u[i] == h[i] by {
        assert(is_hex_digit(b[2 * i]) && is_hex_digit(b[2 * i + 1]));
        assert(h[i] == 16 * hex_of(code[2 * i]) + hex_of(code[2 * i + 1]));
    }
    assert(u =~= h);
}

/// What a link of one parameter says.
proof fn lemma_single(key: Seq<char>, val: Seq<char>)
    requires
        !key.contains('='),
        !key.contains('&'),
        !val.contains('&'),
    ensures
        magnet_parts("magnet:?"@ + key + seq!['='] + val) == Some(
            with_parameter(
                MagnetParts {
                    info_hash: None,
                    display_name: None,
                    trackers: seq![],
                    web_seeds: seq![],
                },
                key + seq!['='] + val,
            ),
        ),
{
    reveal_strlit("magnet:?");
    let uri = "magnet:?"@ + key + seq!['='] + val;
    let pair = key + seq!['='] + val;
    assert(uri.take(8) =~= "magnet:?"@);
    assert("magnet:?"@.is_prefix_of(uri));
    assert forall|i: int| 8 <= i < uri.len() implies uri[i] != '&' by {
        if i < 8 + key.len() {
            assert(uri[i] == key[i - 8]);
        } else if i > 8 + key.len() {
            assert(uri[i] == val[i - 9 - key.len()]);
        }
    }
    lemma_first_at(uri, 8, uri.len() as int, '&');
    assert(uri.subrange(8, uri.len() as int) =~= pair);
}

proof fn lemma_plain_no_amp(s: Seq<char>)
    requires
        plain(s),
    ensures
        !s.contains('&'),
{
    if s.contains('&') {
        let i = s.index_of('&');
        assert(s[i] == '&');
    }
}

proof fn lemma_topic_pair(parts: MagnetParts, topic: Seq<char>)
    requires
        plain(topic),
    ensures
        with_parameter(parts, "xt"@ + seq!['='] + topic) == match exact_topic(topic) {
            Some(h) => MagnetParts { info_hash: Some(h), ..parts },
            None => parts,
        },
{
    reveal_strlit("xt");
    lemma_plain(topic);
    lemma_pair("xt"@, topic);
}

/// The link to a torrent, made of its hash in hexadecimal of either case, names
/// that torrent and nothing else.
pub proof fn law_hash_read(code: Seq<char>, h: Seq<u8>, r: Result<MagnetLink, TorrentError>)
    requires
        writes_hash(code, h),
        read_as("magnet:?xt=urn:btih:"@ + code, r),
    ensures
        r matches Ok(link) && link.info_hash@ == h && link.display_name is None
            && link.trackers@.len() == 0 && link.web_seeds@.len() == 0,
{
    lemma_topic(code, h);
    let topic = "urn:btih:"@ + code;
    reveal_strlit("urn:btih:");
    reveal_strlit("xt");
    reveal_strlit("magnet:?");
    reveal_strlit("magnet:?xt=urn:btih:");
    assert(plain(topic));
    lemma_plain_no_amp(topic);
    lemma_single("xt"@, topic);
    assert("magnet:?xt=urn:btih:"@ + code =~= "magnet:?"@ + "xt"@ + seq!['='] + topic);
    let none = MagnetParts {
        info_hash: None,
        display_name: None,
        trackers: seq![],
        web_seeds: seq![],
    };
    lemma_topic_pair(none, topic);
    let link = r->Ok_0;
    assert(texts(link.trackers@).len() == link.trackers@.len());
    assert(texts(link.web_seeds@).len() == link.web_seeds@.len());
}

/// The hash of a torrent, written in hexadecimal, reads back as that hash.
pub proof fn law_hash_round_trip(h: Seq<u8>, code: Seq<char>, r: Result<MagnetLink, TorrentError>)
    requires
        h.len() == 20,
        encode_utf8(code) == hex_bytes(h),
        read_as("magnet:?xt=urn:btih:"@ + code, r),
    ensures
        r matches Ok(link) && link.info_hash@ == h,
{
    let b = hex_bytes(h);
    assert forall|i: int| 0 <= i < b.len() implies #[trigger] b[i] < 128 by {
        let byte = h[i / 2] as int;
        assert(0 <= byte / 16 < 16);
    }
    lemma_ascii_utf8(b);
    crate::text::lemma_encode_injective(code, ascii_chars(b));
    assert forall|i: int| 0 <= i < 40 implies hex_of(#[trigger] code[i]) >= 0 by {
        let byte = h[i / 2] as int;
        assert(0 <= byte / 16 < 16);
        assert(code[i] == b[i] as char);
    }
    assert forall|i: int| 0 <= i < 20 implies (#[trigger] h[i]) == 16 * hex_of(code[2 * i])
        + hex_of(code[2 * i + 1]) by {
        let byte = h[i] as int;
        assert((2 * i) / 2 == i && (2 * i + 1) / 2 == i);
        assert((2 * i) % 2 == 0 && (2 * i + 1) % 2 == 1);
        assert(code[2 * i] == b[2 * i] as char && code[2 * i + 1] == b[2 * i + 1] as char);
        assert(0 <= byte / 16 < 16);
        assert(b[2 * i] == hex_digit(byte / 16) && b[2 * i + 1] == hex_digit(byte % 16));
    }
    law_hash_read(code, h, r);
}

/// The value of a base-32 digit of either case; negative for another character.
pub open spec fn base32_of(c: char) -> int {
    if 'A' <= c <= 'Z' {
        c as int - 'A' as int
    } else if 'a' <= c <= 'z' {
        c as int - 'a' as int
    } else if '2' <= c <= '7' {
        26 + (c as int - '2' as int)
    } else {
        -1
    }
}

/// The number that the first `n` base-32 digits write, the highest first.
pub open spec fn base32_number(code: Seq<char>, n: int) -> int
    decreases n,
{
    if n <= 0 {
        0
    } else {
        32 * base32_number(code, n - 1) + base32_of(code[n - 1])
    }
}

proof fn lemma_bits_join(bits: Seq<u8>, a: int, n: int)
    requires
        0 <= a,
        0 <= n,
        a + n <= bits.len(),
    ensures
        bits_value(bits.take(a + n)) == bits_value(bits.take(a)) * vstd::arithmetic::power2::pow2(
            n as nat,
        ) + bits_value(bits.subrange(a, a + n)),
    decreases n,
{
    if n == 0 {
        vstd::arithmetic::power2::lemma2_to64();
        assert(bits.subrange(a, a) =~= seq![]);
    } else {
        lemma_bits_join(bits, a, n - 1);
        assert(bits.take(a + n).drop_last() =~= bits.take(a + n - 1));
        assert(bits.subrange(a, a + n).drop_last() =~= bits.subrange(a, a + n - 1));
        vstd::arithmetic::power2::lemma_pow2_unfold(n as nat);
        let x = bits_value(bits.take(a));
        let p = vstd::arithmetic::power2::pow2((n - 1) as nat) as int;
        assert(x * (2 * p) == 2 * (x * p)) by (nonlinear_arith);
    }
}

proof fn lemma_digit_bits(digits: Seq<u8>, i: int)
    requires
        0 <= i < digits.len(),
        base32_value(digits[i]) is Some,
    ensures
        bits_value(base32_bits(digits).subrange(5 * i, 5 * i + 5)) == base32_value(digits[i])->0,
{
    let v = base32_value(digits[i])->0;
    crate::types::lemma_base32_group(digits, i, v);
    let s = base32_bits(digits).subrange(5 * i, 5 * i + 5);
    reveal_with_fuel(bits_value, 6);
    assert(s.drop_last() =~= s.take(4));
    assert(s.take(4).drop_last() =~= s.take(3));
    assert(s.take(3).drop_last() =~= s.take(2));
    assert(s.take(2).drop_last() =~= s.take(1));
    assert(s.take(1).drop_last() =~= s.take(0));
    assert(bits_value(s.take(0)) == 0);
    assert(s[0] == v / 16 % 2 && s[1] == v / 8 % 2 && s[2] == v / 4 % 2 && s[3] == v / 2 % 2 && s[4]
        == v % 2);
}

proof fn lemma_digits_number(code: Seq<char>, digits: Seq<u8>, n: int)
    requires
        0 <= n <= digits.len(),
        code.len() == digits.len(),
        forall|i: int|
            0 <= i < digits.len() ==> base32_value(#[trigger] digits[i]) == Some(base32_of(code[i])),
    ensures
        bits_value(base32_bits(digits).take(5 * n)) == base32_number(code, n),
    decreases n,
{
    let bits = base32_bits(digits);
    if n > 0 {
        lemma_digits_number(code, digits, n - 1);
        lemma_bits_join(bits, 5 * (n - 1), 5);
        lemma_digit_bits(digits, n - 1);
        vstd::arithmetic::power2::lemma2_to64();
        assert(5 * (n - 1) + 5 == 5 * n);
        assert(base32_value(digits[n - 1]) == Some(base32_of(code[n - 1])));
        let x = bits_value(bits.take(5 * (n - 1)));
        assert(x == base32_number(code, n - 1));
    } else {
        assert(bits.take(0) =~= seq![]);
    }
}

proof fn lemma_bits_small(bits: Seq<u8>)
    requires
        forall|i: int| 0 <= i < bits.len() ==> #[trigger] bits[i] <= 1,
    ensures
        0 <= bits_value(bits) < vstd::arithmetic::power2::pow2(bits.len()),
    decreases bits.len(),
{
    if bits.len() == 0 {
        vstd::arithmetic::power2::lemma2_to64();
    } else {
        assert forall|i: int| 0 <= i < bits.drop_last().len() implies #[trigger] bits.drop_last()[i]
            <= 1 by {
            assert(bits.drop_last()[i] == bits[i]);
        }
        lemma_bits_small(bits.drop_last());
        vstd::arithmetic::power2::lemma_pow2_unfold(bits.len());
        assert(bits[bits.len() - 1] <= 1);
    }
}

proof fn lemma_bytes_number(bits: Seq<u8>, n: int)
    requires
        0 <= n,
        8 * n <= bits.len(),
        forall|i: int| 0 <= i < bits.len() ==> #[trigger] bits[i] <= 1,
    ensures
        number(whole_bytes(bits), 0, n) == bits_value(bits.take(8 * n)),
    decreases n,
{
    if n > 0 {
        lemma_bytes_number(bits, n - 1);
        lemma_bits_join(bits, 8 * (n - 1), 8);
        let one = bits.subrange(8 * (n - 1), 8 * n);
        assert forall|i: int| 0 <= i < one.len() implies #[trigger] one[i] <= 1 by {
            assert(one[i] == bits[8 * (n - 1) + i]);
        }
        lemma_bits_small(one);
        vstd::arithmetic::power2::lemma2_to64();
        assert(whole_bytes(bits)[n - 1] == bits_value(one));
        assert(8 * (n - 1) + 8 == 8 * n);
        let x = bits_value(bits.take(8 * (n - 1)));
        assert(x == number(whole_bytes(bits), 0, n - 1));
        assert(bits_value(bits.take(8 * n)) == x * 256 + bits_value(one));
        assert(number(whole_bytes(bits), 0, n) == 256 * x + whole_bytes(bits)[0 + n - 1]);
    } else {
        assert(bits.take(8 * n) =~= seq![]);
        assert(bits_value(bits.take(8 * n)) == 0);
        assert(number(whole_bytes(bits), 0, n) == 0);
    }
}

/// The link to a torrent, made of its hash in base 32 of either case, names the
/// torrent whose hash is that number.
pub proof fn law_base32_hash_read(code: Seq<char>, r: Result<MagnetLink, TorrentError>)
    requires
        code.len() == 32,
        forall|i: int| 0 <= i < 32 ==> base32_of(#[trigger] code[i]) >= 0,
        read_as("magnet:?xt=urn:btih:"@ + code, r),
    ensures
        r matches Ok(link) && number(link.info_hash@, 0, 20) == base32_number(code, 32)
            && link.display_name is None && link.trackers@.len() == 0 && link.web_seeds@.len() == 0,
{
    reveal_strlit("urn:btih:");
    reveal_strlit("xt");
    reveal_strlit("magnet:?");
    reveal_strlit("magnet:?xt=urn:btih:");
    let topic = "urn:btih:"@ + code;
    assert forall|i: int| 0 <= i < code.len() implies 0 <= (#[trigger] code[i]) as int <= 127
        && code[i] != '&' && code[i] != '%' by {
        assert(base32_of(code[i]) >= 0);
    }
    assert(plain(code));
    assert(plain(topic));
    lemma_plain(code);
    lemma_plain_no_amp(topic);
    lemma_single("xt"@, topic);
    assert("magnet:?xt=urn:btih:"@ + code =~= "magnet:?"@ + "xt"@ + seq!['='] + topic);
    let none = MagnetParts {
        info_hash: None,
        display_name: None,
        trackers: seq![],
        web_seeds: seq![],
    };
    lemma_topic_pair(none, topic);
    assert(topic.skip(9) =~= code);
    assert(topic.take(9) =~= "urn:btih:"@);
    assert(vstd::utf8::is_ascii_chars(code));
    let upper = ascii_upper(code);
    assert forall|i: int| 0 <= i < upper.len() implies 0 <= (#[trigger] upper[i]) as int <= 127
        && upper[i] != '&' && upper[i] != '%' && base32_value(upper[i] as u8) == Some(
        base32_of(code[i]),
    ) by {
        assert(base32_of(code[i]) >= 0);
    }
    lemma_plain(upper);
    let digits = codes(upper);
    assert forall|i: int| 0 <= i < digits.len() implies base32_value(#[trigger] digits[i]) == Some(
        base32_of(code[i]),
    ) by {
        assert(digits[i] == upper[i] as u8);
    }
    let bits = base32_bits(digits);
    assert(base32_decoded(code) == Some(whole_bytes(bits)));
    assert forall|i: int| 0 <= i < bits.len() implies #[trigger] bits[i] <= 1 by {}
    lemma_digits_number(code, digits, 32);
    lemma_bytes_number(bits, 20);
    let link = r->Ok_0;
    assert(texts(link.trackers@).len() == link.trackers@.len());
    assert(texts(link.web_seeds@).len() == link.web_seeds@.len());
}

/// A value is a text in percent encoding: it decodes to the text.
pub open spec fn stands_for(val: Seq<char>, text: Seq<char>) -> bool {
    !val.contains('&') && percent_decoded(encode_utf8(val)) == encode_utf8(text)
}

proof fn lemma_stands_for(val: Seq<char>, text: Seq<char>)
    requires
        stands_for(val, text),
    ensures
        parameter_text(val) == text,
{
    vstd::utf8::encode_utf8_valid_utf8(text);
    vstd::utf8::encode_utf8_decode_utf8(text);
}

proof fn lemma_added(uri: Seq<char>, key: Seq<char>, val: Seq<char>)
    requires
        "magnet:?"@.is_prefix_of(uri),
        !key.contains('='),
        !key.contains('&'),
        !val.contains('&'),
    ensures
        magnet_parts(uri) is Some,
        magnet_parts(uri + seq!['&'] + key + seq!['='] + val) == Some(
            with_parameter(magnet_parts(uri)->0, key + seq!['='] + val),
        ),
{
    reveal_strlit("magnet:?");
    let pair = key + seq!['='] + val;
    let all = uri + seq!['&'] + key + seq!['='] + val;
    if pair.contains('&') {
        let i = pair.index_of('&');
        if i < key.len() {
            assert(key[i] == '&');
        } else if i > key.len() {
            assert(val[i - key.len() - 1] == '&');
        }
    }
    assert(all =~= uri + seq!['&'] + pair);
    assert(all.take(8) =~= uri.take(8));
    assert("magnet:?"@ =~= uri.take(8));
    assert("magnet:?"@.is_prefix_of(all));
    lemma_appended(
        MagnetParts { info_hash: None, display_name: None, trackers: seq![], web_seeds: seq![] },
        uri,
        pair,
        8,
    );
}

/// A tracker that is added to a link comes after those before it, and changes
/// nothing else.
pub proof fn law_tracker_added(
    uri: Seq<char>,
    val: Seq<char>,
    text: Seq<char>,
    before: MagnetLink,
    r: Result<MagnetLink, TorrentError>,
)
    requires
        stands_for(val, text),
        read_as(uri, Ok(before)),
        read_as(uri + "&tr="@ + val, r),
    ensures
        r matches Ok(link) && {
            &&& link.info_hash@ == before.info_hash@
            &&& opt_text(link.display_name) == opt_text(before.display_name)
            &&& texts(link.trackers@) == texts(before.trackers@).push(text)
            &&& texts(link.web_seeds@) == texts(before.web_seeds@)
        },
{
    reveal_strlit("&tr=");
    reveal_strlit("tr");
    reveal_strlit("xt");
    reveal_strlit("dn");
    reveal_strlit("ws");
    lemma_stands_for(val, text);
    assert(uri + "&tr="@ + val =~= uri + seq!['&'] + "tr"@ + seq!['='] + val);
    lemma_added(uri, "tr"@, val);
    lemma_pair("tr"@, val);
    assert("tr"@[0] != "xt"@[0] && "tr"@[0] != "dn"@[0] && "tr"@[0] != "ws"@[0]);
}

/// A web seed that is added to a link comes after those before it, and changes
/// nothing else.
pub proof fn law_web_seed_added(
    uri: Seq<char>,
    val: Seq<char>,
    text: Seq<char>,
    before: MagnetLink,
    r: Result<MagnetLink, TorrentError>,
)
    requires
        stands_for(val, text),
        read_as(uri, Ok(before)),
        read_as(uri + "&ws="@ + val, r),
    ensures
        r matches Ok(link) && {
            &&& link.info_hash@ == before.info_hash@
            &&& opt_text(link.display_name) == opt_text(before.display_name)
            &&& texts(link.trackers@) == texts(before.trackers@)
            &&& texts(link.web_seeds@) == texts(before.web_seeds@).push(text)
        },
{
    reveal_strlit("&ws=");
    reveal_strlit("tr");
    reveal_strlit("xt");
    reveal_strlit("dn");
    reveal_strlit("ws");
    lemma_stands_for(val, text);
    assert(uri + "&ws="@ + val =~= uri + seq!['&'] + "ws"@ + seq!['='] + val);
    lemma_added(uri, "ws"@, val);
    lemma_pair("ws"@, val);
    assert("ws"@[0] != "xt"@[0] && "ws"@[0] != "dn"@[0] && "ws"@[0] != "tr"@[0]);
}

/// A name that is added to a link is its name, and changes nothing else.
pub proof fn law_name_added(
    uri: Seq<char>,
    val: Seq<char>,
    text: Seq<char>,
    before: MagnetLink,
    r: Result<MagnetLink, TorrentError>,
)
    requires
        stands_for(val, text),
        read_as(uri, Ok(before)),
        read_as(uri + "&dn="@ + val, r),
    ensures
        r matches Ok(link) && {
            &&& link.info_hash@ == before.info_hash@
            &&& opt_text(link.display_name) == Some(text)
            &&& texts(link.trackers@) == texts(before.trackers@)
            &&& texts(link.web_seeds@) == texts(before.web_seeds@)
        },
{
    reveal_strlit("&dn=");
    reveal_strlit("tr");
    reveal_strlit("xt");
    reveal_strlit("dn");
    reveal_strlit("ws");
    lemma_stands_for(val, text);
    assert(uri + "&dn="@ + val =~= uri + seq!['&'] + "dn"@ + seq!['='] + val);
    lemma_added(uri, "dn"@, val);
    lemma_pair("dn"@, val);
    assert("dn"@[0] != "xt"@[0] && "dn"@[0] != "ws"@[0] && "dn"@[0] != "tr"@[0]);
}

/// A parameter of another kind that is added to a link changes nothing.
pub proof fn law_other_ignored(
    uri: Seq<char>,
    key: Seq<char>,
    val: Seq<char>,
    before: MagnetLink,
    r: Result<MagnetLink, TorrentError>,
)
    requires
        key != "xt"@ && key != "dn"@ && key != "tr"@ && key != "ws"@,
        !key.contains('=') && !key.contains('&') && !val.contains('&'),
        read_as(uri, Ok(before)),
        read_as(uri + "&"@ + key + "="@ + val, r),
    ensures
        r matches Ok(link) && {
            &&& link.info_hash@ == before.info_hash@
            &&& opt_text(link.display_name) == opt_text(before.display_name)
            &&& texts(link.trackers@) == texts(before.trackers@)
            &&& texts(link.web_seeds@) == texts(before.web_seeds@)
        },
{
    reveal_strlit("&");
    reveal_strlit("=");
    assert(uri + "&"@ + key + "="@ + val =~= uri + seq!['&'] + key + seq!['='] + val);
    lemma_added(uri, key, val);
    lemma_pair(key, val);
}

} // verus!

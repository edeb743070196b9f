//! Calls into other crates: random numbers, digests, and text codes.

use crate::bytes::{be_bytes, be_value};
use vstd::prelude::*;
use vstd::utf8::{decode_utf8, encode_utf8, valid_utf8};

verus! {

/// `rand::random::<u8>`: any byte.
#[verifier::external_body]
pub(crate) fn random_u8() -> u8 {
    rand::random::<u8>()
}

/// `rand::random::<u32>`: any 32-bit number.
#[verifier::external_body]
pub(crate) fn random_u32() -> u32 {
    rand::random::<u32>()
}

/// `rand::random::<u64>`: any 64-bit number.
#[verifier::external_body]
pub(crate) fn random_u64() -> u64 {
    rand::random::<u64>()
}

/// `rand::random_range` below a bound: any number below the bound.
#[verifier::external_body]
pub(crate) fn random_below(n: usize) -> (r: usize)
    requires
        n > 0,
    ensures
        r < n,
{
    rand::random_range(0..n)
}

/// The SHA-1 digest of a byte sequence, as `sha1` computes it.
pub uninterp spec fn sha1_of(data: Seq<u8>) -> Seq<u8>;

/// `sha1::Sha1`, one-shot: twenty bytes that depend on the data alone.
#[verifier::external_body]
pub(crate) fn sha1_digest(data: &[u8]) -> (r: [u8; 20])
    ensures
        r@ == sha1_of(data@),
{
    <sha1::Sha1 as sha1::Digest>::digest(data).into()
}

/// The CRC-32C checksum of a byte sequence, as `crc32c` computes it.
pub uninterp spec fn crc32c_of(data: Seq<u8>) -> u32;

/// `crc32c::crc32c`: a number that depends on the data alone.
#[verifier::external_body]
pub(crate) fn crc32c_checksum(data: &[u8]) -> (r: u32)
    ensures
        r == crc32c_of(data@),
{
    crc32c::crc32c(data)
}

/// The error of reading past the end of data.
#[verifier::external_type_specification]
#[verifier::external_body]
pub struct ExIoError(std::io::Error);

/// `byteorder::WriteBytesExt::write_u16` in network byte order, onto a byte
/// buffer: appends two bytes and cannot fail.
#[verifier::external_body]
pub(crate) fn write_u16(buf: &mut Vec<u8>, v: u16)
    ensures
        final(buf)@ == old(buf)@ + be_bytes(v as nat, 2),
{
    byteorder::WriteBytesExt::write_u16::<byteorder::BigEndian>(buf, v).unwrap()
}

/// `byteorder::WriteBytesExt::write_u32` in network byte order, onto a byte
/// buffer: appends four bytes and cannot fail.
#[verifier::external_body]
pub(crate) fn write_u32(buf: &mut Vec<u8>, v: u32)
    ensures
        final(buf)@ == old(buf)@ + be_bytes(v as nat, 4),
{
    byteorder::WriteBytesExt::write_u32::<byteorder::BigEndian>(buf, v).unwrap()
}

/// `byteorder::WriteBytesExt::write_u64` in network byte order, onto a byte
/// buffer: appends eight bytes and cannot fail.
#[verifier::external_body]
pub(crate) fn write_u64(buf: &mut Vec<u8>, v: u64)
    ensures
        final(buf)@ == old(buf)@ + be_bytes(v as nat, 8),
{
    byteorder::WriteBytesExt::write_u64::<byteorder::BigEndian>(buf, v).unwrap()
}

/// `byteorder::ReadBytesExt::read_u16` in network byte order, from the start
/// of data: an error exactly if there are fewer than two bytes.
#[verifier::external_body]
pub(crate) fn read_u16(data: &[u8]) -> (r: Result<u16, std::io::Error>)
    ensures
        match r {
            Ok(v) => data@.len() >= 2 && v == be_value(data@.take(2)),
            Err(_) => data@.len() < 2,
        },
{
    let mut rest = data;
    byteorder::ReadBytesExt::read_u16::<byteorder::BigEndian>(&mut rest)
}

/// `byteorder::ReadBytesExt::read_u32` in network byte order, from the start
/// of data: an error exactly if there are fewer than four bytes.
#[verifier::external_body]
pub(crate) fn read_u32(data: &[u8]) -> (r: Result<u32, std::io::Error>)
    ensures
        match r {
            Ok(v) => data@.len() >= 4 && v == be_value(data@.take(4)),
            Err(_) => data@.len() < 4,
        },
{
    let mut rest = data;
    byteorder::ReadBytesExt::read_u32::<byteorder::BigEndian>(&mut rest)
}

/// `byteorder::ReadBytesExt::read_u64` in network byte order, from the start
/// of data: an error exactly if there are fewer than eight bytes.
#[verifier::external_body]
pub(crate) fn read_u64(data: &[u8]) -> (r: Result<u64, std::io::Error>)
    ensures
        match r {
            Ok(v) => data@.len() >= 8 && v == be_value(data@.take(8)),
            Err(_) => data@.len() < 8,
        },
{
    let mut rest = data;
    byteorder::ReadBytesExt::read_u64::<byteorder::BigEndian>(&mut rest)
}

/// Why a text is no URL.
#[verifier::external_type_specification]
#[verifier::external_body]
pub struct ExUrlError(url::ParseError);

/// The host and the port that a URL names, as `url` reads it; nothing if the
/// text is no URL.
pub uninterp spec fn url_parts(text: Seq<char>) -> Option<(Option<Seq<char>>, Option<u16>)>;

/// `url::Url::parse` with the host and the port of the URL: they depend on the
/// text alone.
#[verifier::external_body]
pub(crate) fn parse_url(text: &str) -> (r: Result<(Option<String>, Option<u16>), url::ParseError>)
    ensures
        match r {
            Ok((host, port)) => url_parts(text@) == Some(
                (
                    match host {
                        Some(h) => Some(h@),
                        None => None,
                    },
                    port,
                ),
            ),
            Err(_) => url_parts(text@) is None,
        },
{
    url::Url::parse(text).map(|u| (u.host_str().map(|h| h.to_string()), u.port()))
}

/// A hexadecimal digit, of either case.
pub open spec fn is_hex_digit(b: u8) -> bool {
    48 <= b <= 57 || 65 <= b <= 70 || 97 <= b <= 102
}

/// The value of a hexadecimal digit.
pub open spec fn hex_value(b: u8) -> int {
    if b <= 57 {
        b - 48
    } else if b <= 70 {
        b - 55
    } else {
        b - 87
    }
}

/// The lower-case hexadecimal digit of a value below sixteen.
pub open spec fn hex_digit(n: int) -> u8 {
    if n < 10 {
        (48 + n) as u8
    } else {
        (87 + n) as u8
    }
}

/// Bytes in hexadecimal, two lower-case digits each, high half first.
pub open spec fn hex_bytes(b: Seq<u8>) -> Seq<u8> {
    Seq::new(
        2 * b.len(),
        |i: int|
            if i % 2 == 0 {
                hex_digit(b[i / 2] as int / 16)
            } else {
                hex_digit(b[i / 2] as int % 16)
            },
    )
}

/// The bytes that hexadecimal digits write; nothing for an odd number of
/// digits or for another character.
pub open spec fn unhex(s: Seq<u8>) -> Option<Seq<u8>> {
    if s.len() % 2 == 0 && forall|i: int| 0 <= i < s.len() ==> is_hex_digit(#[trigger] s[i]) {
        Some(
            Seq::new(
                s.len() / 2,
                |i: int| (16 * hex_value(s[2 * i]) + hex_value(s[2 * i + 1])) as u8,
            ),
        )
    } else {
        None
    }
}

/// `hex::encode`: two lower-case hexadecimal digits for each byte.
#[verifier::external_body]
pub(crate) fn hex_encode(data: &[u8]) -> (r: String)
    ensures
        encode_utf8(r@) == hex_bytes(data@),
{
    hex::encode(data)
}

/// `hex::decode`: the bytes written by an even number of hexadecimal digits
/// of either case; an error for anything else.
#[verifier::external_body]
pub(crate) fn hex_decode(s: &str) -> (r: Option<Vec<u8>>)
    ensures
        match r {
            Some(v) => unhex(encode_utf8(s@)) == Some(v@),
            None => unhex(encode_utf8(s@)) is None,
        },
{
    hex::decode(s).ok()
}

/// Percent-decoding: `%` and two hexadecimal digits stand for a byte, and
/// every other byte stands for itself.
pub open spec fn percent_decoded(s: Seq<u8>) -> Seq<u8>
    decreases s.len(),
{
    if s.len() == 0 {
        seq![]
    } else if s[0] == 37 && s.len() >= 3 && is_hex_digit(s[1]) && is_hex_digit(s[2]) {
        seq![(16 * hex_value(s[1]) + hex_value(s[2])) as u8] + percent_decoded(s.skip(3))
    } else {
        seq![s[0]] + percent_decoded(s.skip(1))
    }
}

/// `urlencoding::decode`: the text whose UTF-8 bytes are the percent-decoded
/// bytes; an error where those are not UTF-8.
#[verifier::external_body]
pub(crate) fn percent_decode(s: &str) -> (r: Option<String>)
    ensures
        match r {
            Some(t) => valid_utf8(percent_decoded(encode_utf8(s@))) && t@ == decode_utf8(
                percent_decoded(encode_utf8(s@)),
            ),
            None => !valid_utf8(percent_decoded(encode_utf8(s@))),
        },
{
    urlencoding::decode(s).ok().map(|t| t.into_owned())
}

/// A hexadecimal text reads back as the bytes it was written from.
pub proof fn lemma_hex_round_trip(b: Seq<u8>)
    ensures
        unhex(hex_bytes(b)) == Some(b),
{
    let h = hex_bytes(b);
    assert forall|i: int| 0 <= i < h.len() implies is_hex_digit(#[trigger] h[i]) by {
        let byte = b[i / 2] as int;
        assert(0 <= byte / 16 < 16);
    }
    assert forall|i: int| 0 <= i < b.len() implies (16 * hex_value(h[2 * i]) + hex_value(
        h[2 * i + 1],
    )) as u8 == b[i] by {
        let byte = b[i] as int;
        assert((2 * i) / 2 == i);
        assert((2 * i + 1) / 2 == i);
        assert((2 * i) % 2 == 0);
        assert((2 * i + 1) % 2 == 1);
        assert(hex_value(hex_digit(byte / 16)) == byte / 16);
        assert(hex_value(hex_digit(byte % 16)) == byte % 16);
    }
    assert(unhex(h)->0 =~= b);
}

} // verus!

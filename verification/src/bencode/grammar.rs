//! What bencoded data stands for: encoding and parsing as functions on byte
//! sequences.

use crate::bencode::{inserted, Bencode, MAX_PARSE_DEPTH};
use crate::bytes::first_index;
use crate::error::TorrentError;
use crate::text::{decimal, decimal_bytes, i64_value, lossy_text, signed_decimal_bytes, usize_value};
use vstd::prelude::*;
use vstd::utf8::{decode_utf8, encode_utf8, valid_utf8};

verus! {

/// Why data does not parse: with a message of this library, or with one of
/// the standard library.
pub enum Fault {
    Message(Seq<char>),
    Std,
}

/// The error that reports a fault.
pub open spec fn reports(e: TorrentError, f: Fault) -> bool {
    match e {
        TorrentError::BencodeParse(s) => match f {
            Fault::Message(m) => s@ == m,
            Fault::Std => true,
        },
        _ => false,
    }
}

/// A byte string: its length in decimal, a colon, and the bytes.
pub open spec fn encode_bytes(b: Seq<u8>) -> Seq<u8> {
    decimal_bytes(b.len()) + seq![58u8] + b
}

/// The encodings of a sequence of values, one after the other.
pub open spec fn encode_items(l: Seq<Bencode>) -> Seq<u8>
    decreases l,
{
    if l.len() == 0 {
        seq![]
    } else {
        encode_items(l.drop_last()) + encode(l.last())
    }
}

/// The encodings of entries, each a key and its value.
pub open spec fn encode_entries(e: Seq<(Seq<char>, Bencode)>) -> Seq<u8>
    decreases e,
{
    if e.len() == 0 {
        seq![]
    } else {
        encode_entries(e.drop_last()) + encode_bytes(encode_utf8(e.last().0)) + encode(e.last().1)
    }
}

/// The encoding of a value.
pub open spec fn encode(b: Bencode) -> Seq<u8>
    decreases b,
{
    match b {
        Bencode::Integer(i) => seq![105u8] + signed_decimal_bytes(i) + seq![101u8],
        Bencode::Bytes(s) => encode_bytes(s),
        Bencode::List(l) => seq![108u8] + encode_items(l) + seq![101u8],
        Bencode::Dict(e) => seq![100u8] + encode_entries(e) + seq![101u8],
    }
}

/// Spellings of an integer that are refused although they name one: a leading
/// zero, and zero with a minus sign.
pub open spec fn refused_spelling(raw: Seq<u8>) -> bool {
    ||| raw == seq![45u8, 48u8]
    ||| raw.len() > 1 && raw[0] == 48
    ||| raw.len() > 2 && raw[0] == 45 && raw[1] == 48
}

/// The integer at `pos`: the text between `i` and `e`, with the position after
/// the `e`.
pub open spec fn parse_integer_at(data: Seq<u8>, pos: int) -> Result<(Bencode, int), Fault> {
    match first_index(data, pos + 1, 101) {
        None => Err(Fault::Message("Missing 'e' for integer"@)),
        Some(end) => {
            let raw = data.subrange(pos + 1, end);
            if !valid_utf8(raw) {
                Err(Fault::Std)
            } else if refused_spelling(raw) {
                Err(Fault::Message("Invalid integer format: "@ + decode_utf8(raw)))
            } else {
                match i64_value(decode_utf8(raw)) {
                    None => Err(Fault::Std),
                    Some(n) => Ok((Bencode::Integer(n), end + 1)),
                }
            }
        },
    }
}

/// The byte string at `pos`, with the position after it.
pub open spec fn parse_bytes_at(data: Seq<u8>, pos: int) -> Result<(Seq<u8>, int), Fault> {
    match first_index(data, pos, 58) {
        None => Err(Fault::Message("Missing ':' for string"@)),
        Some(colon) => {
            let raw = data.subrange(pos, colon);
            if !valid_utf8(raw) {
                Err(Fault::Std)
            } else {
                match usize_value(decode_utf8(raw)) {
                    None => Err(Fault::Std),
                    Some(len) => if colon + 1 + len > data.len() {
                        Err(Fault::Message("String extends past end of data"@))
                    } else {
                        Ok((data.subrange(colon + 1, colon + 1 + len), colon + 1 + len))
                    },
                }
            }
        },
    }
}

/// The values from `pos` up to an `e`, after the values already read, with
/// the position after the `e`.
pub open spec fn parse_items_at(data: Seq<u8>, pos: int, depth: int, done: Seq<Bencode>) -> Result<
    (Seq<Bencode>, int),
    Fault,
>
    decreases MAX_PARSE_DEPTH + 1 - depth, data.len() - pos, 1int,
{
    if pos >= data.len() {
        Err(Fault::Message("Missing 'e' for list"@))
    } else if data[pos] == 101 {
        Ok((done, pos + 1))
    } else {
        match parse_value_at(data, pos, depth) {
            Err(f) => Err(f),
            Ok((v, next)) => if pos < next <= data.len() {
                parse_items_at(data, next, depth, done.push(v))
            } else {
                Err(Fault::Std)
            },
        }
    }
}

/// The entries from `pos` up to an `e`, added to those already read, with the
/// position after the `e`. A later entry replaces an earlier one of the same
/// key.
pub open spec fn parse_entries_at(
    data: Seq<u8>,
    pos: int,
    depth: int,
    done: Seq<(Seq<char>, Bencode)>,
) -> Result<(Seq<(Seq<char>, Bencode)>, int), Fault>
    decreases MAX_PARSE_DEPTH + 1 - depth, data.len() - pos, 1int,
{
    if pos >= data.len() {
        Err(Fault::Message("Missing 'e' for dict"@))
    } else if data[pos] == 101 {
        Ok((done, pos + 1))
    } else {
        match parse_bytes_at(data, pos) {
            Err(f) => Err(f),
            Ok((key, mid)) => if pos < mid <= data.len() {
                match parse_value_at(data, mid, depth) {
                    Err(f) => Err(f),
                    Ok((v, next)) => if mid < next <= data.len() {
                        parse_entries_at(data, next, depth, inserted(done, lossy_text(key), v))
                    } else {
                        Err(Fault::Std)
                    },
                }
            } else {
                Err(Fault::Std)
            },
        }
    }
}

/// The value at `pos` inside `depth` containers, with the position after it.
pub open spec fn parse_value_at(data: Seq<u8>, pos: int, depth: int) -> Result<(Bencode, int), Fault>
    decreases MAX_PARSE_DEPTH + 1 - depth, data.len() - pos, 0int,
{
    if depth > MAX_PARSE_DEPTH {
        Err(Fault::Message("Max parse depth exceeded"@))
    } else if pos >= data.len() {
        Err(Fault::Message("Unexpected end of data"@))
    } else if data[pos] == 105 {
        parse_integer_at(data, pos)
    } else if data[pos] == 108 {
        match parse_items_at(data, pos + 1, depth + 1, seq![]) {
            Err(f) => Err(f),
            Ok((l, next)) => Ok((Bencode::List(l), next)),
        }
    } else if data[pos] == 100 {
        match parse_entries_at(data, pos + 1, depth + 1, seq![]) {
            Err(f) => Err(f),
            Ok((e, next)) => Ok((Bencode::Dict(e), next)),
        }
    } else if 48 <= data[pos] <= 57 {
        match parse_bytes_at(data, pos) {
            Err(f) => Err(f),
            Ok((b, next)) => Ok((Bencode::Bytes(b), next)),
        }
    } else {
        Err(
            Fault::Message(
                "Unexpected byte: "@ + decimal(data[pos] as nat) + " at pos "@ + decimal(pos as nat),
            ),
        )
    }
}

/// What data that starts with a bencoded value stands for. Bytes after the
/// value do not matter.
pub open spec fn parsed(data: Seq<u8>) -> Result<Bencode, Fault> {
    match parse_value_at(data, 0, 0) {
        Err(f) => Err(f),
        Ok((v, _)) => Ok(v),
    }
}

/// Where the value of the first entry keyed `info` lies, looking from `pos`.
pub open spec fn find_info(data: Seq<u8>, pos: int) -> Result<(int, int), Fault>
    decreases data.len() - pos,
{
    if pos >= data.len() || data[pos] == 101 {
        Err(Fault::Message("No info dict found"@))
    } else {
        match parse_bytes_at(data, pos) {
            Err(f) => Err(f),
            Ok((key, mid)) => match parse_value_at(data, mid, 0) {
                Err(f) => Err(f),
                Ok((_, next)) => if key == seq![105u8, 110u8, 102u8, 111u8] {
                    Ok((mid, next))
                } else if pos < next <= data.len() {
                    find_info(data, next)
                } else {
                    Err(Fault::Std)
                },
            },
        }
    }
}

/// The raw bytes of the `info` value of a torrent's root dictionary.
pub open spec fn info_raw(data: Seq<u8>) -> Result<Seq<u8>, Fault> {
    if data.len() == 0 || data[0] != 100 {
        Err(Fault::Message("Root not a dict"@))
    } else {
        match find_info(data, 1) {
            Err(f) => Err(f),
            Ok((start, end)) => Ok(data.subrange(start, end)),
        }
    }
}

/// Where a byte that is searched for lies.
pub proof fn lemma_first_index(s: Seq<u8>, from: int, b: u8)
    requires
        0 <= from,
    ensures
        first_index(s, from, b) matches Some(i) ==> from <= i < s.len() && s[i] == b,
    decreases s.len() - from,
{
    if from < s.len() && s[from] != b {
        lemma_first_index(s, from + 1, b);
    }
}

/// A parsed value ends after it starts and within the data.
pub proof fn lemma_value_advances(data: Seq<u8>, pos: int, depth: int)
    requires
        0 <= pos,
    ensures
        parse_value_at(data, pos, depth) matches Ok((_, next)) ==> pos < next <= data.len(),
    decreases MAX_PARSE_DEPTH + 1 - depth, data.len() - pos, 0int,
{
    if depth <= MAX_PARSE_DEPTH && pos < data.len() {
        if data[pos] == 105 {
            lemma_first_index(data, pos + 1, 101);
        } else if data[pos] == 108 {
            lemma_items_advance(data, pos + 1, depth + 1, seq![]);
        } else if data[pos] == 100 {
            lemma_entries_advance(data, pos + 1, depth + 1, seq![]);
        } else if 48 <= data[pos] <= 57 {
            lemma_bytes_advance(data, pos);
        }
    }
}

/// A parsed byte string ends after it starts and within the data.
pub proof fn lemma_bytes_advance(data: Seq<u8>, pos: int)
    requires
        0 <= pos,
    ensures
        parse_bytes_at(data, pos) matches Ok((_, next)) ==> pos < next <= data.len(),
{
    lemma_first_index(data, pos, 58);
    if let Some(colon) = first_index(data, pos, 58) {
        lemma_unsigned_not_negative(decode_utf8(data.subrange(pos, colon)));
    }
}

pub proof fn lemma_unsigned_not_negative(s: Seq<char>)
    ensures
        usize_value(s) matches Some(n) ==> n >= 0,
{
    lemma_digits_not_negative(s);
    lemma_digits_not_negative(s.skip(1));
}

proof fn lemma_digits_not_negative(s: Seq<char>)
    ensures
        crate::text::all_digits(s) ==> crate::text::digits_value(s) >= 0,
    decreases s.len(),
{
    if crate::text::all_digits(s) {
        assert(crate::text::is_digit(s[s.len() - 1]));
        if s.len() > 1 {
            assert forall|i: int| 0 <= i < s.drop_last().len() implies crate::text::is_digit(
                #[trigger] s.drop_last()[i],
            ) by {
                assert(crate::text::is_digit(s[i]));
            }
            lemma_digits_not_negative(s.drop_last());
        } else {
            assert(crate::text::digits_value(s.drop_last()) == 0);
        }
    }
}

proof fn lemma_items_advance(data: Seq<u8>, pos: int, depth: int, done: Seq<Bencode>)
    requires
        0 <= pos,
    ensures
        parse_items_at(data, pos, depth, done) matches Ok((_, next)) ==> pos < next <= data.len(),
    decreases MAX_PARSE_DEPTH + 1 - depth, data.len() - pos, 1int,
{
    if pos < data.len() && data[pos] != 101 {
        lemma_value_advances(data, pos, depth);
        if let Ok((v, next)) = parse_value_at(data, pos, depth) {
            lemma_items_advance(data, next, depth, done.push(v));
        }
    }
}

proof fn lemma_entries_advance(
    data: Seq<u8>,
    pos: int,
    depth: int,
    done: Seq<(Seq<char>, Bencode)>,
)
    requires
        0 <= pos,
    ensures
        parse_entries_at(data, pos, depth, done) matches Ok((_, next)) ==> pos < next
            <= data.len(),
    decreases MAX_PARSE_DEPTH + 1 - depth, data.len() - pos, 1int,
{
    if pos < data.len() && data[pos] != 101 {
        lemma_bytes_advance(data, pos);
        if let Ok((key, mid)) = parse_bytes_at(data, pos) {
            lemma_value_advances(data, mid, depth);
            if let Ok((v, next)) = parse_value_at(data, mid, depth) {
                lemma_entries_advance(data, next, depth, inserted(done, lossy_text(key), v));
            }
        }
    }
}

} // verus!

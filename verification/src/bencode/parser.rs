//! The parser and the encoder.

use crate::bencode::grammar::{
    encode, encode_bytes, encode_entries, encode_items, find_info, info_raw, parse_bytes_at,
    parse_entries_at, parse_integer_at, parse_items_at, parse_value_at, parsed, reports, Fault,
};
use crate::bencode::grammar::{lemma_bytes_advance, lemma_value_advances};
use crate::bencode::{inserted, lemma_inserted_sorted, lemma_model, models, well_formed};
use crate::bencode::{Bencode, BencodeDict, BencodeValue, MAX_PARSE_DEPTH};
use crate::bytes::{bytes_equal, copy_range, find_byte};
use crate::error::TorrentError;
use crate::text::{
    decimal_string, joined, parse_i64, parse_usize, push_decimal, signed_decimal_bytes, utf8_lossy,
};
use vstd::prelude::*;

verus! {

/// Reads and writes bencoded data.
pub struct BencodeParser;

/// What a parse step must return, given what the data stands for there.
pub open spec fn agrees(
    r: Result<(BencodeValue, usize), TorrentError>,
    expected: Result<(Bencode, int), Fault>,
) -> bool {
    match (r, expected) {
        (Ok((v, next)), Ok((b, end))) => v@ == b && next == end && well_formed(b),
        (Err(e), Err(f)) => reports(e, f),
        _ => false,
    }
}

impl BencodeParser {
    /// Parses the bencoded value that the data starts with.
    pub fn parse(data: &[u8]) -> (r: Result<BencodeValue, TorrentError>)
        ensures
            match (r, parsed(data@)) {
                (Ok(v), Ok(b)) => v@ == b && well_formed(b),
                (Err(e), Err(f)) => reports(e, f),
                _ => false,
            },
    {
        match Self::parse_value(data, 0, 0) {
            Ok((value, _)) => Ok(value),
            Err(e) => Err(e),
        }
    }

    /// Encodes a value.
    pub fn encode(value: &BencodeValue) -> (buf: Vec<u8>)
        ensures
            buf@ == encode(value@),
            well_formed(value@),
    {
        let mut buf: Vec<u8> = Vec::new();
        Self::encode_value(value, &mut buf);
        assert(buf@ =~= encode(value@));
        buf
    }

    /// Parses the value at a position, inside `depth` containers.
    pub fn parse_value(data: &[u8], pos: usize, depth: usize) -> (r: Result<
        (BencodeValue, usize),
        TorrentError,
    >)
        requires
            depth <= MAX_PARSE_DEPTH + 1,
        ensures
            agrees(r, parse_value_at(data@, pos as int, depth as int)),
            r matches Ok((_, next)) ==> pos < next <= data.len(),
        decreases MAX_PARSE_DEPTH + 1 - depth, data.len() - pos, 0int,
    {
        proof {
            lemma_value_advances(data@, pos as int, depth as int);
        }
        if depth > MAX_PARSE_DEPTH {
            return Err(TorrentError::BencodeParse("Max parse depth exceeded".to_string()));
        }
        if pos >= data.len() {
            return Err(TorrentError::BencodeParse("Unexpected end of data".to_string()));
        }
        let b: u8 = data[pos];
        if b == 105 {
            Self::parse_integer(data, pos)
        } else if b == 108 {
            Self::parse_list(data, pos, depth + 1)
        } else if b == 100 {
            Self::parse_dict(data, pos, depth + 1)
        } else if 48 <= b && b <= 57 {
            match Self::parse_byte_string(data, pos) {
                Ok((bytes, next)) => Ok((wrap_bytes(bytes), next)),
                Err(e) => Err(e),
            }
        } else {
            let mut message = joined("Unexpected byte: ", decimal_string(b as u64).as_str());
            message.append(" at pos ");
            message.append(decimal_string(pos as u64).as_str());
            Err(TorrentError::BencodeParse(message))
        }
    }

    /// Parses the integer whose `i` stands at a position.
    pub fn parse_integer(data: &[u8], pos: usize) -> (r: Result<(BencodeValue, usize), TorrentError>)
        requires
            pos < data.len(),
        ensures
            agrees(r, parse_integer_at(data@, pos as int)),
    {
        broadcast use lemma_model;

        let end: usize = match find_byte(data, pos + 1, 101) {
            Some(end) => end,
            None => {
                return Err(TorrentError::BencodeParse("Missing 'e' for integer".to_string()));
            },
        };
        let raw = vstd::slice::slice_subrange(data, pos + 1, end);
        let num_str = match core::str::from_utf8(raw) {
            Ok(s) => s,
            Err(e) => {
                return Err(TorrentError::BencodeParse(e.to_string()));
            },
        };
        if bytes_equal(raw, &[45u8, 48u8]) || (raw.len() > 1 && raw[0] == 48) || (raw.len() > 2
            && raw[0] == 45 && raw[1] == 48) {
            return Err(TorrentError::BencodeParse(joined("Invalid integer format: ", num_str)));
        }
        match parse_i64(num_str) {
            Ok(n) => Ok((BencodeValue::Integer(n), end + 1)),
            Err(e) => Err(TorrentError::BencodeParse(e.to_string())),
        }
    }

    /// Parses the byte string at a position: its bytes and where it ends.
    pub fn parse_byte_string(data: &[u8], pos: usize) -> (r: Result<(Vec<u8>, usize), TorrentError>)
        ensures
            match (r, parse_bytes_at(data@, pos as int)) {
                (Ok((v, next)), Ok((b, end))) => v@ == b && next == end,
                (Err(e), Err(f)) => reports(e, f),
                _ => false,
            },
            r matches Ok((_, next)) ==> pos < next <= data.len(),
    {
        proof {
            lemma_bytes_advance(data@, pos as int);
        }
        let colon: usize = match find_byte(data, pos, 58) {
            Some(colon) => colon,
            None => {
                return Err(TorrentError::BencodeParse("Missing ':' for string".to_string()));
            },
        };
        let len_str = match core::str::from_utf8(vstd::slice::slice_subrange(data, pos, colon)) {
            Ok(s) => s,
            Err(e) => {
                return Err(TorrentError::BencodeParse(e.to_string()));
            },
        };
        let len: usize = match parse_usize(len_str) {
            Ok(n) => n,
            Err(e) => {
                return Err(TorrentError::BencodeParse(e.to_string()));
            },
        };
        let start: usize = colon + 1;
        if len > data.len() - start {
            return Err(TorrentError::BencodeParse("String extends past end of data".to_string()));
        }
        Ok((copy_range(data, start, start + len), start + len))
    }

    /// Parses the list whose `l` stands at a position; its items lie inside
    /// `depth` containers.
    fn parse_list(data: &[u8], pos: usize, depth: usize) -> (r: Result<
        (BencodeValue, usize),
        TorrentError,
    >)
        requires
            pos < data.len(),
            1 <= depth <= MAX_PARSE_DEPTH + 1,
        ensures
            agrees(
                r,
                match parse_items_at(data@, pos + 1, depth as int, seq![]) {
                    Ok((l, end)) => Ok((Bencode::List(l), end)),
                    Err(f) => Err(f),
                },
            ),
        decreases MAX_PARSE_DEPTH + 1 - depth, data.len() - pos, 2int,
    {
        broadcast use lemma_model;

        let mut items: Vec<BencodeValue> = Vec::new();
        let mut current: usize = pos + 1;
        assert(models(items@) =~= seq![]);
        while current < data.len() && data[current] != 101
            invariant
                pos < current <= data.len(),
                1 <= depth <= MAX_PARSE_DEPTH + 1,
                parse_items_at(data@, pos + 1, depth as int, seq![]) == parse_items_at(
                    data@,
                    current as int,
                    depth as int,
                    models(items@),
                ),
                well_formed(Bencode::List(models(items@))),
            decreases data.len() - current,
        {
            let ghost before = models(items@);
            match Self::parse_value(data, current, depth) {
                Ok((value, next)) => {
                    let ghost v = value@;
                    items.push(value);
                    assert(models(items@) =~= before.push(v));
                    proof {
                        lemma_pushed_well_formed(before, v);
                    }
                    current = next;
                },
                Err(e) => {
                    return Err(e);
                },
            }
        }
        if current >= data.len() {
            return Err(TorrentError::BencodeParse("Missing 'e' for list".to_string()));
        }
        Ok((BencodeValue::List(items), current + 1))
    }

    /// Parses the dictionary whose `d` stands at a position; its values lie
    /// inside `depth` containers.
    fn parse_dict(data: &[u8], pos: usize, depth: usize) -> (r: Result<
        (BencodeValue, usize),
        TorrentError,
    >)
        requires
            pos < data.len(),
            1 <= depth <= MAX_PARSE_DEPTH + 1,
        ensures
            agrees(
                r,
                match parse_entries_at(data@, pos + 1, depth as int, seq![]) {
                    Ok((e, end)) => Ok((Bencode::Dict(e), end)),
                    Err(f) => Err(f),
                },
            ),
        decreases MAX_PARSE_DEPTH + 1 - depth, data.len() - pos, 2int,
    {
        broadcast use lemma_model;

        let mut map = BencodeDict::new();
        let mut current: usize = pos + 1;
        while current < data.len() && data[current] != 101
            invariant
                pos < current <= data.len(),
                1 <= depth <= MAX_PARSE_DEPTH + 1,
                parse_entries_at(data@, pos + 1, depth as int, seq![]) == parse_entries_at(
                    data@,
                    current as int,
                    depth as int,
                    map@,
                ),
                well_formed(Bencode::Dict(map@)),
            decreases data.len() - current,
        {
            let (key_bytes, next) = match Self::parse_byte_string(data, current) {
                Ok((k, n)) => (k, n),
                Err(e) => {
                    return Err(e);
                },
            };
            let key = utf8_lossy(key_bytes.as_slice());
            match Self::parse_value(data, next, depth) {
                Ok((value, next2)) => {
                    proof {
                        lemma_inserted_well_formed(map@, key@, value@);
                    }
                    map.insert(key, value);
                    current = next2;
                },
                Err(e) => {
                    return Err(e);
                },
            }
        }
        if current >= data.len() {
            return Err(TorrentError::BencodeParse("Missing 'e' for dict".to_string()));
        }
        Ok((BencodeValue::Dict(map), current + 1))
    }

    /// Appends the encoding of a value.
    pub fn encode_value(value: &BencodeValue, buf: &mut Vec<u8>)
        ensures
            final(buf)@ == old(buf)@ + encode(value@),
            well_formed(value@),
        decreases value,
    {
        broadcast use lemma_model;

        let ghost before = buf@;
        match value {
            BencodeValue::Integer(i) => {
                buf.push(105);
                push_signed_decimal(buf, *i);
                buf.push(101);
                assert(buf@ =~= before + encode(value@));
            },
            BencodeValue::ByteString(s) => {
                push_byte_string(buf, s.as_slice());
            },
            BencodeValue::List(l) => {
                buf.push(108);
                let mut i: usize = 0;
                assert(models(l@).take(0) =~= seq![]);
                assert(buf@ =~= before.push(108) + encode_items(models(l@).take(0)));
                while i < l.len()
                    invariant
                        i <= l.len(),
                        value is List,
                        *l == value->List_0,
                        buf@ == before.push(108) + encode_items(models(l@).take(i as int)),
                        forall|k: int| 0 <= k < i ==> well_formed(#[trigger] models(l@)[k]),
                    decreases l.len() - i,
                {
                    assert(decreases_to!(*value => value->List_0));
                    assert(decreases_to!(*l => l[i as int]));
                    Self::encode_value(&l[i], buf);
                    i += 1;
                    proof {
                        let t = models(l@).take(i as int);
                        assert(t.drop_last() =~= models(l@).take(i - 1));
                        assert(buf@ =~= before.push(108) + encode_items(t));
                    }
                }
                assert(models(l@).take(i as int) =~= models(l@));
                buf.push(101);
                assert(buf@ =~= before + encode(value@));
            },
            BencodeValue::Dict(d) => {
                buf.push(100);
                let mut i: usize = 0;
                assert(d@.take(0) =~= seq![]);
                assert(buf@ =~= before.push(100) + encode_entries(d@.take(0)));
                while i < d.len()
                    invariant
                        i <= d@.len(),
                        value is Dict,
                        *d == value->Dict_0,
                        buf@ == before.push(100) + encode_entries(d@.take(i as int)),
                        forall|k: int| 0 <= k < i ==> well_formed((#[trigger] d@[k]).1),
                    decreases d@.len() - i,
                {
                    push_byte_string(buf, d.key_at(i).as_bytes());
                    assert(decreases_to!(*value => value->Dict_0));
                    assert(decreases_to!(value->Dict_0 => value->Dict_0.entries));
                    assert(decreases_to!(d.entries => d.entries[i as int]));
                    Self::encode_value(&d.entries[i].1, buf);
                    i += 1;
                    proof {
                        let t = d@.take(i as int);
                        assert(t.drop_last() =~= d@.take(i - 1));
                        assert(buf@ =~= before.push(100) + encode_entries(t));
                    }
                }
                proof {
                    use_type_invariant(d);
                }
                assert(d@.take(i as int) =~= d@);
                buf.push(101);
                assert(buf@ =~= before + encode(value@));
            },
        }
    }
}

proof fn lemma_pushed_well_formed(l: Seq<Bencode>, v: Bencode)
    requires
        well_formed(Bencode::List(l)),
        well_formed(v),
    ensures
        well_formed(Bencode::List(l.push(v))),
{
    assert forall|i: int| 0 <= i < l.push(v).len() implies well_formed(#[trigger] l.push(v)[i]) by {
        if i < l.len() {
            let b = Bencode::List(l);
            assert(well_formed(b));
            assert(well_formed(b->List_0[i]));
            assert(l.push(v)[i] == l[i]);
        } else {
            assert(l.push(v)[i] == v);
        }
    }
}

proof fn lemma_inserted_well_formed(e: Seq<(Seq<char>, Bencode)>, key: Seq<char>, value: Bencode)
    requires
        well_formed(Bencode::Dict(e)),
        well_formed(value),
    ensures
        well_formed(Bencode::Dict(inserted(e, key, value))),
{
    lemma_inserted_sorted(e, key, value);
    crate::bencode::lemma_rank(e, key);
    let n = inserted(e, key, value);
    let r = crate::bencode::rank(e, key);
    assert forall|i: int| 0 <= i < n.len() implies well_formed((#[trigger] n[i]).1) by {
        if i < r {
            assert(n[i] == e[i]);
        } else if i > r {
            assert(n[i] == e[i] || n[i] == e[i - 1]);
        }
    }
}

fn wrap_bytes(b: Vec<u8>) -> (v: BencodeValue)
    ensures
        v@ == Bencode::Bytes(b@),
{
    broadcast use lemma_model;

    BencodeValue::ByteString(b)
}

/// Appends an integer in decimal.
pub fn push_signed_decimal(buf: &mut Vec<u8>, n: i64)
    ensures
        final(buf)@ == old(buf)@ + signed_decimal_bytes(n as int),
{
    let ghost before = buf@;
    if n < 0 {
        buf.push(45);
        if n == i64::MIN {
            push_decimal(buf, 9223372036854775808);
        } else {
            push_decimal(buf, (-n) as u64);
        }
    } else {
        push_decimal(buf, n as u64);
    }
    assert(buf@ =~= before + signed_decimal_bytes(n as int));
}

/// Appends the encoding of a byte string.
pub fn push_byte_string(buf: &mut Vec<u8>, b: &[u8])
    ensures
        final(buf)@ == old(buf)@ + encode_bytes(b@),
{
    let ghost before = buf@;
    push_decimal(buf, b.len() as u64);
    buf.push(58);
    buf.extend_from_slice(b);
    assert(buf@ =~= before + encode_bytes(b@));
}

/// The raw bytes of the `info` value of a torrent's root dictionary, as they
/// stand in the data.
pub fn extract_info_raw(data: &[u8]) -> (r: Result<&[u8], TorrentError>)
    ensures
        match (r, info_raw(data@)) {
            (Ok(s), Ok(b)) => s@ == b,
            (Err(e), Err(f)) => reports(e, f),
            _ => false,
        },
{
    if data.len() == 0 || data[0] != 100 {
        return Err(TorrentError::BencodeParse("Root not a dict".to_string()));
    }
    let mut pos: usize = 1;
    while pos < data.len() && data[pos] != 101
        invariant
            1 <= pos <= data.len(),
            data.len() > 0 && data@[0] == 100,
            find_info(data@, 1) == find_info(data@, pos as int),
        decreases data.len() - pos,
    {
        let (key, next) = match BencodeParser::parse_byte_string(data, pos) {
            Ok((k, n)) => (k, n),
            Err(e) => {
                return Err(e);
            },
        };
        let val_end: usize = match BencodeParser::parse_value(data, next, 0) {
            Ok((_, n)) => n,
            Err(e) => {
                return Err(e);
            },
        };
        if bytes_equal(key.as_slice(), &[105u8, 110u8, 102u8, 111u8]) {
            return Ok(vstd::slice::slice_subrange(data, next, val_end));
        }
        pos = val_end;
    }
    Err(TorrentError::BencodeParse("No info dict found".to_string()))
}

} // verus!

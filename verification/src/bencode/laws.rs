//! What holds between encoding and parsing.

use crate::bencode::grammar::{
    encode, encode_bytes, encode_entries, encode_items, find_info, info_raw, parse_bytes_at,
    parse_entries_at, parse_integer_at, parse_items_at, parse_value_at, parsed,
};
use crate::bencode::{inserted, key_less, lemma_lookup_at, lemma_rank, lookup, rank, sorted, well_formed};
use crate::bencode::{dictionary, lemma_dictionary_entries, lemma_dictionary_sorted};
use crate::bencode::{Bencode, MAX_PARSE_DEPTH};
use crate::bytes::first_index;
use crate::text::{ascii_chars, decimal, decimal_bytes, lossy_text, signed_decimal_bytes};
use crate::text::{lemma_ascii_utf8, lemma_decimal_shape, lemma_decimal_value};
use vstd::prelude::*;
use vstd::utf8::{decode_utf8, encode_utf8};

verus! {

/// Containers nest at most `levels` deep.
pub open spec fn nests_within(b: Bencode, levels: int) -> bool
    decreases b,
{
    &&& levels >= 0
    &&& match b {
        Bencode::List(l) => forall|i: int|
            0 <= i < l.len() ==> nests_within(#[trigger] l[i], levels - 1),
        Bencode::Dict(e) => forall|i: int|
            0 <= i < e.len() ==> nests_within((#[trigger] e[i]).1, levels - 1),
        _ => true,
    }
}

/// Integers and lengths fit the machine types that hold them.
pub open spec fn machine_sized(b: Bencode) -> bool
    decreases b,
{
    match b {
        Bencode::Integer(i) => i64::MIN <= i <= i64::MAX,
        Bencode::Bytes(s) => s.len() <= usize::MAX,
        Bencode::List(l) => forall|i: int| 0 <= i < l.len() ==> machine_sized(#[trigger] l[i]),
        Bencode::Dict(e) => forall|i: int|
            0 <= i < e.len() ==> machine_sized((#[trigger] e[i]).1) && encode_utf8(e[i].0).len()
                <= usize::MAX,
    }
}

/// A value that the parser can give back: sorted dictionaries, machine-sized
/// numbers and lengths, and no more nesting than the parser follows.
pub open spec fn parseable(b: Bencode, levels: int) -> bool {
    &&& well_formed(b)
    &&& machine_sized(b)
    &&& nests_within(b, levels)
}

proof fn lemma_item_parseable(b: Bencode, levels: int, i: int)
    requires
        parseable(b, levels),
        b is List,
        0 <= i < b->List_0.len(),
    ensures
        parseable(b->List_0[i], levels - 1),
        levels > 0,
{
    assert(well_formed(b->List_0[i]));
    assert(machine_sized(b->List_0[i]));
    assert(nests_within(b->List_0[i], levels - 1));
}

proof fn lemma_entry_parseable(b: Bencode, levels: int, i: int)
    requires
        parseable(b, levels),
        b is Dict,
        0 <= i < b->Dict_0.len(),
    ensures
        parseable(b->Dict_0[i].1, levels - 1),
        levels > 0,
        encode_utf8(b->Dict_0[i].0).len() <= usize::MAX,
{
    assert(well_formed(b->Dict_0[i].1));
    assert(machine_sized(b->Dict_0[i].1));
    assert(nests_within(b->Dict_0[i].1, levels - 1));
}

proof fn lemma_first_index_at(s: Seq<u8>, from: int, b: u8, i: int)
    requires
        0 <= from <= i < s.len(),
        s[i] == b,
        forall|j: int| from <= j < i ==> s[j] != b,
    ensures
        first_index(s, from, b) == Some(i),
    decreases i - from,
{
    if from < i {
        lemma_first_index_at(s, from + 1, b, i);
    }
}

/// A decimal length reads back as the length.
proof fn lemma_length_text(n: nat)
    requires
        n <= usize::MAX,
    ensures
        vstd::utf8::valid_utf8(decimal_bytes(n)),
        crate::text::usize_value(decode_utf8(decimal_bytes(n))) == Some(n as int),
{
    lemma_decimal_shape(n);
    lemma_decimal_value(n);
    assert(crate::text::is_ascii_bytes(decimal_bytes(n)));
    lemma_ascii_utf8(decimal_bytes(n));
    assert(ascii_chars(decimal_bytes(n)) =~= decimal(n));
}

/// An encoded byte string parses to the byte string, wherever it stands.
pub proof fn lemma_bytes_round_trip(data: Seq<u8>, pos: int, b: Seq<u8>)
    requires
        b.len() <= usize::MAX,
        0 <= pos,
        pos + encode_bytes(b).len() <= data.len(),
        data.subrange(pos, pos + encode_bytes(b).len()) == encode_bytes(b),
    ensures
        parse_bytes_at(data, pos) == Ok::<(Seq<u8>, int), crate::bencode::grammar::Fault>(
            (b, pos + encode_bytes(b).len()),
        ),
        48 <= data[pos] <= 57,
{
    let digits = decimal_bytes(b.len());
    let enc = encode_bytes(b);
    let part = data.subrange(pos, pos + enc.len());
    lemma_decimal_shape(b.len());
    lemma_length_text(b.len());
    let colon = pos + digits.len();
    assert forall|j: int| pos <= j < colon implies data[j] != 58 && data[j] == digits[j - pos] by {
        assert(part[j - pos] == enc[j - pos]);
        assert(48 <= digits[j - pos] <= 57);
    }
    assert(part[digits.len() as int] == enc[digits.len() as int]);
    lemma_first_index_at(data, pos, 58, colon);
    assert(data.subrange(pos, colon) =~= digits);
    assert forall|j: int| 0 <= j < b.len() implies data[colon + 1 + j] == b[j] by {
        assert(part[digits.len() + 1 + j] == enc[digits.len() + 1 + j]);
    }
    assert(data.subrange(colon + 1, colon + 1 + b.len()) =~= b);
}

/// An encoded integer parses to the integer, wherever it stands.
pub proof fn lemma_integer_round_trip(data: Seq<u8>, pos: int, n: int)
    requires
        i64::MIN <= n <= i64::MAX,
        0 <= pos,
        pos + encode(Bencode::Integer(n)).len() <= data.len(),
        data.subrange(pos, pos + encode(Bencode::Integer(n)).len()) == encode(Bencode::Integer(n)),
    ensures
        parse_integer_at(data, pos) == Ok::<(Bencode, int), crate::bencode::grammar::Fault>(
            (Bencode::Integer(n), pos + encode(Bencode::Integer(n)).len()),
        ),
{
    let enc = encode(Bencode::Integer(n));
    let part = data.subrange(pos, pos + enc.len());
    let raw = signed_decimal_bytes(n);
    let magnitude = if n < 0 {
        (-n) as nat
    } else {
        n as nat
    };
    let digits = decimal_bytes(magnitude);
    lemma_decimal_shape(magnitude);
    lemma_decimal_value(magnitude);
    let end = pos + 1 + raw.len();
    assert forall|j: int| pos + 1 <= j < end implies data[j] != 101 && data[j] == raw[j - pos - 1]
        && raw[j - pos - 1] < 128 by {
        assert(part[j - pos] == enc[j - pos]);
        if n < 0 {
            if j > pos + 1 {
                assert(raw[j - pos - 1] == digits[j - pos - 2]);
            }
        }
    }
    assert(part[enc.len() - 1] == enc[enc.len() - 1]);
    lemma_first_index_at(data, pos + 1, 101, end);
    assert(data.subrange(pos + 1, end) =~= raw);
    assert(crate::text::is_ascii_bytes(raw)) by {
        assert forall|i: int| 0 <= i < raw.len() implies #[trigger] raw[i] < 128 by {
            assert(data[pos + 1 + i] == raw[pos + 1 + i - pos - 1]);
        }
    }
    lemma_ascii_utf8(raw);
    let text = ascii_chars(raw);
    if n < 0 {
        assert(text.skip(1) =~= decimal(magnitude));
        assert(raw[1] == digits[0]);
    } else {
        assert(text =~= decimal(magnitude));
        assert(crate::text::is_digit(text[0]));
        if n == 0 {
            assert(raw.len() == 1);
        }
    }
}

/// Encodings of two runs of values stand one after the other.
pub proof fn lemma_encode_items_concat(a: Seq<Bencode>, b: Seq<Bencode>)
    ensures
        encode_items(a + b) == encode_items(a) + encode_items(b),
    decreases b.len(),
{
    if b.len() == 0 {
        assert(a + b =~= a);
        assert(encode_items(a) + encode_items(b) =~= encode_items(a));
    } else {
        assert((a + b).drop_last() =~= a + b.drop_last());
        assert((a + b).last() == b.last());
        lemma_encode_items_concat(a, b.drop_last());
        assert(encode_items(a + b) =~= encode_items(a) + encode_items(b));
    }
}

pub proof fn lemma_encode_entries_concat(a: Seq<(Seq<char>, Bencode)>, b: Seq<(Seq<char>, Bencode)>)
    ensures
        encode_entries(a + b) == encode_entries(a) + encode_entries(b),
    decreases b.len(),
{
    if b.len() == 0 {
        assert(a + b =~= a);
        assert(encode_entries(a) + encode_entries(b) =~= encode_entries(a));
    } else {
        assert((a + b).drop_last() =~= a + b.drop_last());
        assert((a + b).last() == b.last());
        lemma_encode_entries_concat(a, b.drop_last());
        assert(encode_entries(a + b) =~= encode_entries(a) + encode_entries(b));
    }
}

/// The encoding of the item at `k` stands after those of the items before it.
pub proof fn lemma_item_place(l: Seq<Bencode>, k: int)
    requires
        0 <= k < l.len(),
    ensures
        encode_items(l.take(k + 1)) == encode_items(l.take(k)) + encode(l[k]),
        encode_items(l) == encode_items(l.take(k)) + encode(l[k]) + encode_items(l.skip(k + 1)),
{
    assert(l.take(k + 1).drop_last() =~= l.take(k));
    assert(l.take(k + 1).last() == l[k]);
    assert(l =~= l.take(k + 1) + l.skip(k + 1));
    lemma_encode_items_concat(l.take(k + 1), l.skip(k + 1));
}

proof fn lemma_entry_place(e: Seq<(Seq<char>, Bencode)>, k: int)
    requires
        0 <= k < e.len(),
    ensures
        encode_entries(e.take(k + 1)) == encode_entries(e.take(k)) + encode_bytes(
            encode_utf8(e[k].0),
        ) + encode(e[k].1),
        encode_entries(e) == encode_entries(e.take(k)) + encode_bytes(encode_utf8(e[k].0)) + encode(
            e[k].1,
        ) + encode_entries(e.skip(k + 1)),
{
    assert(e.take(k + 1).drop_last() =~= e.take(k));
    assert(e.take(k + 1).last() == e[k]);
    assert(e =~= e.take(k + 1) + e.skip(k + 1));
    lemma_encode_entries_concat(e.take(k + 1), e.skip(k + 1));
}

/// An encoding is not empty and does not start with the end marker.
pub proof fn lemma_encode_head(b: Bencode)
    ensures
        encode(b).len() > 0,
        encode(b)[0] != 101,
{
    match b {
        Bencode::Bytes(s) => {
            lemma_decimal_shape(s.len());
            assert(encode(b)[0] == decimal_bytes(s.len())[0]);
        },
        _ => {},
    }
}

/// Where the entry at `k` of an encoded dictionary lies: its key and then its
/// value.
pub proof fn lemma_entry_bytes(data: Seq<u8>, pos: int, e: Seq<(Seq<char>, Bencode)>, k: int)
    requires
        0 <= k < e.len(),
        0 <= pos,
        pos + encode(Bencode::Dict(e)).len() <= data.len(),
        data.subrange(pos, pos + encode(Bencode::Dict(e)).len()) == encode(Bencode::Dict(e)),
    ensures
        ({
            let at = pos + 1 + encode_entries(e.take(k)).len();
            let mid = at + encode_bytes(encode_utf8(e[k].0)).len();
            let next = mid + encode(e[k].1).len();
            &&& data.subrange(at, mid) == encode_bytes(encode_utf8(e[k].0))
            &&& data.subrange(mid, next) == encode(e[k].1)
            &&& next == pos + 1 + encode_entries(e.take(k + 1)).len()
            &&& next < pos + encode(Bencode::Dict(e)).len()
        }),
{
    let enc = encode(Bencode::Dict(e));
    let part = data.subrange(pos, pos + enc.len());
    let key = encode_bytes(encode_utf8(e[k].0));
    let item = encode(e[k].1);
    let off = 1 + encode_entries(e.take(k)).len();
    lemma_entry_place(e, k);
    assert forall|j: int| 0 <= j < key.len() implies data[pos + off + j] == key[j] by {
        assert(part[off + j] == enc[off + j]);
    }
    assert(data.subrange(pos + off, pos + off + key.len()) =~= key);
    let mid = off + key.len();
    assert forall|j: int| 0 <= j < item.len() implies data[pos + mid + j] == item[j] by {
        assert(part[mid + j] == enc[mid + j]);
    }
    assert(data.subrange(pos + mid, pos + mid + item.len()) =~= item);
}

/// A key after all present keys is appended.
proof fn lemma_insert_last(e: Seq<(Seq<char>, Bencode)>, k: int)
    requires
        sorted(e),
        0 <= k < e.len(),
    ensures
        inserted(e.take(k), e[k].0, e[k].1) == e.take(k + 1),
{
    let t = e.take(k);
    lemma_rank(t, e[k].0);
    let r = rank(t, e[k].0);
    if r < k {
        assert(t[r] == e[r]);
        assert(key_less(e[r].0, e[k].0));
    }
    assert(inserted(t, e[k].0, e[k].1) =~= e.take(k + 1));
}

/// A key's text survives being written and read.
proof fn lemma_key_text(key: Seq<char>)
    ensures
        lossy_text(encode_utf8(key)) == key,
{
    vstd::utf8::encode_utf8_valid_utf8(key);
    vstd::utf8::encode_utf8_decode_utf8(key);
}

/// An encoded value parses to the value wherever it stands in the data, and
/// the parser stops right after it.
pub proof fn lemma_value_round_trip(data: Seq<u8>, pos: int, depth: int, b: Bencode)
    requires
        0 <= depth <= MAX_PARSE_DEPTH,
        parseable(b, MAX_PARSE_DEPTH - depth),
        0 <= pos,
        pos + encode(b).len() <= data.len(),
        data.subrange(pos, pos + encode(b).len()) == encode(b),
    ensures
        parse_value_at(data, pos, depth) == Ok::<(Bencode, int), crate::bencode::grammar::Fault>(
            (b, pos + encode(b).len()),
        ),
    decreases b, 1int, 0int,
{
    let enc = encode(b);
    lemma_encode_head(b);
    assert(data.subrange(pos, pos + enc.len())[0] == enc[0]);
    match b {
        Bencode::Integer(n) => {
            lemma_integer_round_trip(data, pos, n);
        },
        Bencode::Bytes(s) => {
            lemma_bytes_round_trip(data, pos, s);
        },
        Bencode::List(l) => {
            assert(l.take(0) =~= seq![]);
            lemma_items_round_trip(data, pos, depth, b, 0);
        },
        Bencode::Dict(e) => {
            assert(e.take(0) =~= seq![]);
            lemma_entries_round_trip(data, pos, depth, b, 0);
        },
    }
}

proof fn lemma_items_round_trip(data: Seq<u8>, pos: int, depth: int, b: Bencode, k: int)
    requires
        0 <= depth <= MAX_PARSE_DEPTH,
        b is List,
        parseable(b, MAX_PARSE_DEPTH - depth),
        0 <= k <= b->List_0.len(),
        0 <= pos,
        pos + encode(b).len() <= data.len(),
        data.subrange(pos, pos + encode(b).len()) == encode(b),
    ensures
        parse_items_at(
            data,
            pos + 1 + encode_items(b->List_0.take(k)).len(),
            depth + 1,
            b->List_0.take(k),
        ) == Ok::<(Seq<Bencode>, int), crate::bencode::grammar::Fault>(
            (b->List_0, pos + encode(b).len()),
        ),
    decreases b, 0int, b->List_0.len() - k,
{
    let l = b->List_0;
    let enc = encode(b);
    let part = data.subrange(pos, pos + enc.len());
    let at = pos + 1 + encode_items(l.take(k)).len();
    if k == l.len() {
        assert(l.take(k) =~= l);
        assert(part[enc.len() - 1] == enc[enc.len() - 1]);
    } else {
        lemma_item_place(l, k);
        lemma_item_parseable(b, MAX_PARSE_DEPTH - depth, k);
        let item = encode(l[k]);
        lemma_encode_head(l[k]);
        assert forall|j: int| 0 <= j < item.len() implies data[at + j] == item[j] by {
            assert(part[at - pos + j] == enc[at - pos + j]);
        }
        assert(data.subrange(at, at + item.len()) =~= item);
        assert(data[at] == data[at + 0]);
        lemma_value_round_trip(data, at, depth + 1, l[k]);
        assert(l.take(k).push(l[k]) =~= l.take(k + 1));
        lemma_items_round_trip(data, pos, depth, b, k + 1);
    }
}

#[verifier::spinoff_prover]
proof fn lemma_entries_round_trip(data: Seq<u8>, pos: int, depth: int, b: Bencode, k: int)
    requires
        0 <= depth <= MAX_PARSE_DEPTH,
        b is Dict,
        parseable(b, MAX_PARSE_DEPTH - depth),
        0 <= k <= b->Dict_0.len(),
        0 <= pos,
        pos + encode(b).len() <= data.len(),
        data.subrange(pos, pos + encode(b).len()) == encode(b),
    ensures
        parse_entries_at(
            data,
            pos + 1 + encode_entries(b->Dict_0.take(k)).len(),
            depth + 1,
            b->Dict_0.take(k),
        ) == Ok::<(Seq<(Seq<char>, Bencode)>, int), crate::bencode::grammar::Fault>(
            (b->Dict_0, pos + encode(b).len()),
        ),
    decreases b, 0int, b->Dict_0.len() - k,
{
    let e = b->Dict_0;
    let enc = encode(b);
    let part = data.subrange(pos, pos + enc.len());
    let at = pos + 1int + encode_entries(e.take(k)).len();
    if k == e.len() {
        assert(e.take(k) =~= e);
        assert(part[enc.len() - 1] == enc[enc.len() - 1]);
    } else {
        lemma_entry_bytes(data, pos, e, k);
        lemma_entry_parseable(b, MAX_PARSE_DEPTH - depth, k);
        let mid = at + encode_bytes(encode_utf8(e[k].0)).len();
        lemma_encode_head(e[k].1);
        lemma_bytes_round_trip(data, at, encode_utf8(e[k].0));
        lemma_value_round_trip(data, mid, depth + 1, e[k].1);
        lemma_key_text(e[k].0);
        lemma_insert_last(e, k);
        lemma_entries_round_trip(data, pos, depth, b, k + 1);
    }
}

/// A dictionary of parseable values can be parsed.
pub proof fn lemma_dictionary_parseable(bindings: Seq<(Seq<char>, Bencode)>, levels: int)
    requires
        levels >= 0,
        forall|i: int|
            0 <= i < bindings.len() ==> parseable((#[trigger] bindings[i]).1, levels - 1)
                && encode_utf8(bindings[i].0).len() <= usize::MAX,
    ensures
        parseable(Bencode::Dict(dictionary(bindings)), levels),
{
    let e = dictionary(bindings);
    lemma_dictionary_sorted(bindings);
    let b = Bencode::Dict(e);
    assert forall|k: int| 0 <= k < e.len() implies well_formed((#[trigger] e[k]).1)
        && machine_sized(e[k].1) && nests_within(e[k].1, levels - 1) && encode_utf8(e[k].0).len()
        <= usize::MAX by {
        let i = lemma_dictionary_entries(bindings, k);
        assert(parseable(bindings[i].1, levels - 1));
    }
}

/// Parsing gives back what was encoded, whatever bytes follow.
pub proof fn law_parse_encode(b: Bencode, rest: Seq<u8>)
    requires
        parseable(b, MAX_PARSE_DEPTH as int),
    ensures
        parsed(encode(b) + rest) == Ok::<Bencode, crate::bencode::grammar::Fault>(b),
{
    let data = encode(b) + rest;
    assert(data.subrange(0, encode(b).len() as int) =~= encode(b));
    lemma_value_round_trip(data, 0, 0, b);
}

/// The raw bytes of a torrent's `info` value are exactly the encoding of that
/// value, whatever the other entries and the bytes after the root dictionary.
pub proof fn law_info_raw_exact(e: Seq<(Seq<char>, Bencode)>, rest: Seq<u8>)
    requires
        parseable(Bencode::Dict(e), MAX_PARSE_DEPTH + 1),
        lookup(e, "info"@) is Some,
    ensures
        info_raw(encode(Bencode::Dict(e)) + rest) == Ok::<
            Seq<u8>,
            crate::bencode::grammar::Fault,
        >(encode(lookup(e, "info"@)->0)),
{
    let data = encode(Bencode::Dict(e)) + rest;
    assert(data[0] == 100);
    assert(data.subrange(0, encode(Bencode::Dict(e)).len() as int) =~= encode(Bencode::Dict(e)));
    assert(e.take(0) =~= seq![]);
    lemma_find_info(data, e, 0);
}

#[verifier::spinoff_prover]
proof fn lemma_find_info(data: Seq<u8>, e: Seq<(Seq<char>, Bencode)>, k: int)
    requires
        parseable(Bencode::Dict(e), MAX_PARSE_DEPTH + 1),
        lookup(e, "info"@) is Some,
        0 <= k <= e.len(),
        forall|i: int| 0 <= i < k ==> (#[trigger] e[i]).0 != "info"@,
        encode(Bencode::Dict(e)).len() <= data.len(),
        data.subrange(0, encode(Bencode::Dict(e)).len() as int) == encode(Bencode::Dict(e)),
    ensures
        find_info(data, 1int + encode_entries(e.take(k)).len()) matches Ok((start, end))
            && 0 <= start <= end <= data.len() && data.subrange(start, end) == encode(
            lookup(e, "info"@)->0,
        ),
    decreases e.len() - k,
{
    let b = Bencode::Dict(e);
    let at = 1int + encode_entries(e.take(k)).len();
    let name = seq![105u8, 110u8, 102u8, 111u8];
    assert(encode_utf8("info"@) == name) by {
        reveal_strlit("info");
        assert("info"@ =~= ascii_chars(name));
        lemma_ascii_utf8(name);
    }
    if k == e.len() {
        crate::bencode::lemma_lookup_none(e, "info"@);
        assert(false);
    }
    lemma_entry_bytes(data, 0, e, k);
    lemma_entry_parseable(b, MAX_PARSE_DEPTH + 1, k);
    let mid = at + encode_bytes(encode_utf8(e[k].0)).len();
    lemma_bytes_round_trip(data, at, encode_utf8(e[k].0));
    lemma_value_round_trip(data, mid, 0, e[k].1);
    lemma_encode_head(e[k].1);
    if e[k].0 == "info"@ {
        assert(sorted(e));
        lemma_lookup_at(e, k);
    } else {
        if encode_utf8(e[k].0) == name {
            crate::text::lemma_encode_injective(e[k].0, "info"@);
        }
        lemma_find_info(data, e, k + 1);
    }
}

/// A torrent without an `info` value is refused, whatever bytes follow.
pub proof fn law_info_missing(e: Seq<(Seq<char>, Bencode)>, rest: Seq<u8>)
    requires
        parseable(Bencode::Dict(e), MAX_PARSE_DEPTH + 1),
        lookup(e, "info"@) is None,
    ensures
        info_raw(encode(Bencode::Dict(e)) + rest) is Err,
{
    let data = encode(Bencode::Dict(e)) + rest;
    assert(data[0] == 100);
    assert(data.subrange(0, encode(Bencode::Dict(e)).len() as int) =~= encode(Bencode::Dict(e)));
    assert(e.take(0) =~= seq![]);
    lemma_no_info(data, e, 0);
}

#[verifier::spinoff_prover]
proof fn lemma_no_info(data: Seq<u8>, e: Seq<(Seq<char>, Bencode)>, k: int)
    requires
        parseable(Bencode::Dict(e), MAX_PARSE_DEPTH + 1),
        lookup(e, "info"@) is None,
        0 <= k <= e.len(),
        encode(Bencode::Dict(e)).len() <= data.len(),
        data.subrange(0, encode(Bencode::Dict(e)).len() as int) == encode(Bencode::Dict(e)),
    ensures
        find_info(data, 1int + encode_entries(e.take(k)).len()) is Err,
    decreases e.len() - k,
{
    let b = Bencode::Dict(e);
    let enc = encode(b);
    let at = 1int + encode_entries(e.take(k)).len();
    let name = seq![105u8, 110u8, 102u8, 111u8];
    assert(encode_utf8("info"@) == name) by {
        reveal_strlit("info");
        assert("info"@ =~= ascii_chars(name));
        lemma_ascii_utf8(name);
    }
    if k == e.len() {
        assert(e.take(k) =~= e);
        assert(data.subrange(0, enc.len() as int)[enc.len() - 1] == enc[enc.len() - 1]);
    } else {
        lemma_entry_bytes(data, 0, e, k);
        lemma_entry_parseable(b, MAX_PARSE_DEPTH + 1, k);
        let mid = at + encode_bytes(encode_utf8(e[k].0)).len();
        lemma_bytes_round_trip(data, at, encode_utf8(e[k].0));
        lemma_value_round_trip(data, mid, 0, e[k].1);
        lemma_encode_head(e[k].1);
        lemma_lookup_at(e, k);
        if encode_utf8(e[k].0) == name {
            crate::text::lemma_encode_injective(e[k].0, "info"@);
        }
        lemma_no_info(data, e, k + 1);
    }
}

} // verus!

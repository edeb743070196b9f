//! How values are written.

use crate::bencode::grammar::{
    encode, encode_entries, encode_items, parse_integer_at, parse_value_at, parsed,
    refused_spelling,
};
use crate::bencode::Bencode;
use crate::bytes::first_index;
use crate::text::{
    all_digits, ascii_chars, decimal, decimal_bytes, digits_value, lemma_decimal_value,
};
use vstd::prelude::*;
use vstd::utf8::encode_utf8;

verus! {

/// Bytes write a natural number in decimal, without leading zeros.
pub open spec fn spelled(b: Seq<u8>, n: int) -> bool {
    &&& all_digits(ascii_chars(b))
    &&& digits_value(ascii_chars(b)) == n
    &&& b.len() > 1 ==> b[0] != '0' as u8
}

proof fn lemma_spelled(n: nat)
    ensures
        spelled(decimal_bytes(n), n as int),
{
    lemma_decimal_value(n);
    crate::text::lemma_decimal_shape(n);
    assert(decimal(n) == ascii_chars(decimal_bytes(n)));
    if n == 0 {
        reveal_with_fuel(decimal_bytes, 2);
    }
}

/// How great an integer is, whatever its sign.
pub open spec fn magnitude(n: int) -> int {
    if n < 0 {
        -n
    } else {
        n
    }
}

/// An integer stands between `i` and `e`, in decimal, behind a minus if it is
/// negative.
pub proof fn law_integer_written(n: int)
    ensures
        exists|d: Seq<u8>| #[trigger]
            spelled(d, magnitude(n)) && encode(Bencode::Integer(n)) == if n < 0 {
                seq!['i' as u8, '-' as u8] + d + seq!['e' as u8]
            } else {
                seq!['i' as u8] + d + seq!['e' as u8]
            },
{
    let m = magnitude(n);
    let d = decimal_bytes(m as nat);
    lemma_spelled(m as nat);
    assert(spelled(d, m));
    assert(encode(Bencode::Integer(n)) =~= if n < 0 {
        seq!['i' as u8, '-' as u8] + d + seq!['e' as u8]
    } else {
        seq!['i' as u8] + d + seq!['e' as u8]
    });
}

/// Bytes stand behind their number, in decimal, and a colon.
pub proof fn law_bytes_written(s: Seq<u8>)
    ensures
        exists|d: Seq<u8>| #[trigger]
            spelled(d, s.len() as int) && encode(Bencode::Bytes(s)) == d + seq![':' as u8] + s,
{
    let d = decimal_bytes(s.len());
    lemma_spelled(s.len());
    assert(spelled(d, s.len() as int));
    assert(encode(Bencode::Bytes(s)) =~= d + seq![':' as u8] + s);
}

/// The items of a list stand one after the other between `l` and `e`.
pub proof fn law_list_written(l: Seq<Bencode>, x: Bencode)
    ensures
        encode(Bencode::List(seq![])) == seq!['l' as u8, 'e' as u8],
        exists|body: Seq<u8>|
            #![trigger body.len()]
            encode(Bencode::List(l)) == seq!['l' as u8] + body + seq!['e' as u8] && encode(
                Bencode::List(l.push(x)),
            ) == seq!['l' as u8] + body + encode(x) + seq!['e' as u8],
{
    let body = encode_items(l);
    assert(encode_items(seq![]) =~= seq![]);
    assert(encode(Bencode::List(seq![])) =~= seq!['l' as u8, 'e' as u8]);
    assert(l.push(x).drop_last() =~= l);
    assert(encode_items(l.push(x)) =~= body + encode(x));
    assert(encode(Bencode::List(l.push(x))) =~= seq!['l' as u8] + body + encode(x) + seq![
        'e' as u8,
    ]);
    assert(body.len() >= 0);
}

/// The entries of a dictionary stand one after the other between `d` and `e`,
/// each with its key before its value.
pub proof fn law_dictionary_written(e: Seq<(Seq<char>, Bencode)>, k: Seq<char>, x: Bencode)
    ensures
        encode(Bencode::Dict(seq![])) == seq!['d' as u8, 'e' as u8],
        exists|body: Seq<u8>|
            #![trigger body.len()]
            encode(Bencode::Dict(e)) == seq!['d' as u8] + body + seq!['e' as u8] && encode(
                Bencode::Dict(e.push((k, x))),
            ) == seq!['d' as u8] + body + encode(Bencode::Bytes(encode_utf8(k))) + encode(x) + seq![
                'e' as u8,
            ],
{
    let body = encode_entries(e);
    assert(encode_entries(seq![]) =~= seq![]);
    assert(encode(Bencode::Dict(seq![])) =~= seq!['d' as u8, 'e' as u8]);
    assert(e.push((k, x)).drop_last() =~= e);
    assert(encode_entries(e.push((k, x))) =~= body + encode(Bencode::Bytes(encode_utf8(k)))
        + encode(x));
    assert(encode(Bencode::Dict(e.push((k, x)))) =~= seq!['d' as u8] + body + encode(
        Bencode::Bytes(encode_utf8(k)),
    ) + encode(x) + seq!['e' as u8]);
    assert(body.len() >= 0);
}

/// An integer with a zero in front of other digits, or with a minus in front of
/// a zero, is refused.
pub proof fn law_spelling_refused(data: Seq<u8>, end: int)
    requires
        3 <= end < data.len(),
        data[0] == 'i' as u8,
        data[end] == 'e' as u8,
        forall|k: int| 1 <= k < end ==> #[trigger] data[k] != 'e' as u8,
        data[1] == '0' as u8 || (data[1] == '-' as u8 && data[2] == '0' as u8),
    ensures
        parsed(data) is Err,
{
    lemma_end_found(data, 1, end);
    let raw = data.subrange(1, end);
    assert(raw[0] == data[1] && raw[1] == data[2]);
    if raw.len() == 2 && raw[0] == 45 {
        assert(raw =~= seq![45u8, 48u8]);
    }
    assert(refused_spelling(raw));
    assert(parse_integer_at(data, 0) is Err);
}

proof fn lemma_end_found(data: Seq<u8>, from: int, end: int)
    requires
        0 <= from <= end < data.len(),
        data[end] == 101,
        forall|k: int| from <= k < end ==> #[trigger] data[k] != 101,
    ensures
        first_index(data, from, 101) == Some(end),
    decreases end - from,
{
    if from < end {
        assert(data[from] != 101);
        lemma_end_found(data, from + 1, end);
    }
}

/// A value starts with a letter that says what it is, or with a digit; whatever
/// starts otherwise is refused.
pub proof fn law_start_refused(data: Seq<u8>)
    requires
        data.len() == 0 || !(data[0] == 'i' as u8 || data[0] == 'l' as u8 || data[0] == 'd' as u8
            || '0' as u8 <= data[0] <= '9' as u8),
    ensures
        parsed(data) is Err,
{
}

/// A value that is nested deeper than a hundred and twenty-eight levels is
/// refused.
pub proof fn law_depth_refused(data: Seq<u8>, pos: int, depth: int)
    requires
        depth > 128,
    ensures
        parse_value_at(data, pos, depth) is Err,
{
}

} // verus!

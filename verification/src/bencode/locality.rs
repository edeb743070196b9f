//! A value parses the same wherever it stands.

use crate::bencode::grammar::{lemma_bytes_advance, lemma_first_index, lemma_unsigned_not_negative,
    lemma_value_advances, parse_bytes_at, parse_entries_at, parse_integer_at, parse_items_at, parse_value_at, Fault};
use crate::bencode::{inserted, Bencode, MAX_PARSE_DEPTH};
use crate::bytes::first_index;
use crate::text::lossy_text;
use vstd::prelude::*;
use vstd::utf8::decode_utf8;

verus! {

/// One sequence stands in another, from an offset on.
pub open spec fn stands_in(part: Seq<u8>, whole: Seq<u8>, off: int) -> bool {
    0 <= off && off + part.len() <= whole.len() && whole.subrange(off, off + part.len()) == part
}

proof fn lemma_same_byte(part: Seq<u8>, whole: Seq<u8>, off: int, i: int)
    requires
        stands_in(part, whole, off),
        0 <= i < part.len(),
    ensures
        whole[off + i] == part[i],
{
    assert(whole.subrange(off, off + part.len())[i] == part[i]);
}

proof fn lemma_same_range(part: Seq<u8>, whole: Seq<u8>, off: int, a: int, b: int)
    requires
        stands_in(part, whole, off),
        0 <= a <= b <= part.len(),
    ensures
        whole.subrange(off + a, off + b) == part.subrange(a, b),
{
    assert forall|i: int| 0 <= i < b - a implies whole.subrange(off + a, off + b)[i]
        == part.subrange(a, b)[i] by {
        lemma_same_byte(part, whole, off, a + i);
    }
    assert(whole.subrange(off + a, off + b) =~= part.subrange(a, b));
}

proof fn lemma_index_shift(part: Seq<u8>, whole: Seq<u8>, off: int, from: int, b: u8)
    requires
        stands_in(part, whole, off),
        0 <= from,
    ensures
        first_index(part, from, b) matches Some(i) ==> first_index(whole, off + from, b) == Some(
            off + i,
        ),
    decreases part.len() - from,
{
    if from < part.len() {
        lemma_same_byte(part, whole, off, from);
        if part[from] != b {
            lemma_index_shift(part, whole, off, from + 1, b);
        }
    }
}

proof fn lemma_bytes_shift(part: Seq<u8>, whole: Seq<u8>, off: int, pos: int)
    requires
        stands_in(part, whole, off),
        0 <= pos,
    ensures
        parse_bytes_at(part, pos) matches Ok((b, next)) ==> parse_bytes_at(whole, off + pos)
            == Ok::<(Seq<u8>, int), Fault>((b, off + next)),
{
    lemma_index_shift(part, whole, off, pos, 58);
    lemma_first_index(part, pos, 58);
    lemma_bytes_advance(part, pos);
    if let Ok((b, next)) = parse_bytes_at(part, pos) {
        let colon = first_index(part, pos, 58)->0;
        lemma_unsigned_not_negative(decode_utf8(part.subrange(pos, colon)));
        lemma_same_range(part, whole, off, pos, colon);
        lemma_same_range(part, whole, off, colon + 1, next);
    }
}

/// A value that parses in a part of the data parses to the same in the whole.
pub proof fn lemma_value_shift(part: Seq<u8>, whole: Seq<u8>, off: int, pos: int, depth: int)
    requires
        stands_in(part, whole, off),
        0 <= pos,
    ensures
        parse_value_at(part, pos, depth) matches Ok((v, next)) ==> parse_value_at(
            whole,
            off + pos,
            depth,
        ) == Ok::<(Bencode, int), Fault>((v, off + next)),
    decreases MAX_PARSE_DEPTH + 1 - depth, part.len() - pos, 0int,
{
    if depth <= MAX_PARSE_DEPTH && pos < part.len() {
        lemma_same_byte(part, whole, off, pos);
        if part[pos] == 105 {
            lemma_index_shift(part, whole, off, pos + 1, 101);
            lemma_first_index(part, pos + 1, 101);
            if let Ok((v, next)) = parse_integer_at(part, pos) {
                lemma_same_range(part, whole, off, pos + 1, next - 1);
            }
        } else if part[pos] == 108 {
            lemma_items_shift(part, whole, off, pos + 1, depth + 1, seq![]);
        } else if part[pos] == 100 {
            lemma_entries_shift(part, whole, off, pos + 1, depth + 1, seq![]);
        } else if 48 <= part[pos] <= 57 {
            lemma_bytes_shift(part, whole, off, pos);
        }
    }
}

proof fn lemma_items_shift(
    part: Seq<u8>,
    whole: Seq<u8>,
    off: int,
    pos: int,
    depth: int,
    done: Seq<Bencode>,
)
    requires
        stands_in(part, whole, off),
        0 <= pos,
    ensures
        parse_items_at(part, pos, depth, done) matches Ok((l, next)) ==> parse_items_at(
            whole,
            off + pos,
            depth,
            done,
        ) == Ok::<(Seq<Bencode>, int), Fault>((l, off + next)),
    decreases MAX_PARSE_DEPTH + 1 - depth, part.len() - pos, 1int,
{
    if pos < part.len() {
        lemma_same_byte(part, whole, off, pos);
        if part[pos] != 101 {
            lemma_value_shift(part, whole, off, pos, depth);
            lemma_value_advances(part, pos, depth);
            if let Ok((v, next)) = parse_value_at(part, pos, depth) {
                lemma_items_shift(part, whole, off, next, depth, done.push(v));
            }
        }
    }
}

proof fn lemma_entries_shift(
    part: Seq<u8>,
    whole: Seq<u8>,
    off: int,
    pos: int,
    depth: int,
    done: Seq<(Seq<char>, Bencode)>,
)
    requires
        stands_in(part, whole, off),
        0 <= pos,
    ensures
        parse_entries_at(part, pos, depth, done) matches Ok((e, next)) ==> parse_entries_at(
            whole,
            off + pos,
            depth,
            done,
        ) == Ok::<(Seq<(Seq<char>, Bencode)>, int), Fault>((e, off + next)),
    decreases MAX_PARSE_DEPTH + 1 - depth, part.len() - pos, 1int,
{
    if pos < part.len() {
        lemma_same_byte(part, whole, off, pos);
        if part[pos] != 101 {
            lemma_bytes_shift(part, whole, off, pos);
            lemma_bytes_advance(part, pos);
            if let Ok((key, mid)) = parse_bytes_at(part, pos) {
                lemma_value_shift(part, whole, off, mid, depth);
                lemma_value_advances(part, mid, depth);
                if let Ok((v, next)) = parse_value_at(part, mid, depth) {
                    lemma_entries_shift(
                        part,
                        whole,
                        off,
                        next,
                        depth,
                        inserted(done, lossy_text(key), v),
                    );
                }
            }
        }
    }
}

} // verus!

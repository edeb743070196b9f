//! Encodings can be told apart, and where one ends is told by it alone.

use crate::bencode::grammar::{
    encode, encode_bytes, encode_entries, encode_items, lemma_value_advances, parse_value_at,
    parsed, Fault,
};
use crate::bencode::laws::{
    lemma_encode_entries_concat, lemma_encode_head, lemma_encode_items_concat,
    lemma_value_round_trip, parseable,
};
use crate::bencode::locality::{lemma_value_shift, stands_in};
use crate::bencode::{Bencode, MAX_PARSE_DEPTH};
use crate::text::{
    decimal, decimal_bytes, lemma_decimal_shape, lemma_decimal_value, lemma_encode_injective,
    signed_decimal_bytes,
};
use vstd::prelude::*;
use vstd::utf8::encode_utf8;

verus! {

/// Two texts that end at the same mark, which neither holds before, are the
/// same, and so is what follows.
proof fn lemma_marked(a: Seq<u8>, b: Seq<u8>, mark: u8, x: Seq<u8>, y: Seq<u8>)
    requires
        a + seq![mark] + x == b + seq![mark] + y,
        forall|i: int| 0 <= i < a.len() ==> #[trigger] a[i] != mark,
        forall|i: int| 0 <= i < b.len() ==> #[trigger] b[i] != mark,
    ensures
        a == b,
        x == y,
{
    let s = a + seq![mark] + x;
    let t = b + seq![mark] + y;
    assert(s[a.len() as int] == mark);
    assert(t[b.len() as int] == mark);
    if a.len() < b.len() {
        assert(t[a.len() as int] == b[a.len() as int]);
    }
    if b.len() < a.len() {
        assert(s[b.len() as int] == a[b.len() as int]);
    }
    assert forall|i: int| 0 <= i < a.len() implies a[i] == b[i] by {
        assert(s[i] == a[i] && t[i] == b[i]);
    }
    assert(a =~= b);
    assert(x =~= s.skip(1int + a.len()));
    assert(y =~= t.skip(1int + b.len()));
}

/// Numbers with the same decimal digits are the same.
proof fn lemma_decimal_unique(m: nat, n: nat)
    requires
        decimal_bytes(m) == decimal_bytes(n),
    ensures
        m == n,
{
    lemma_decimal_value(m);
    lemma_decimal_value(n);
    assert(decimal(m) =~= decimal(n));
}

proof fn lemma_signed_unique(m: int, n: int)
    requires
        signed_decimal_bytes(m) == signed_decimal_bytes(n),
    ensures
        m == n,
{
    let a = if m < 0 {
        (-m) as nat
    } else {
        m as nat
    };
    let b = if n < 0 {
        (-n) as nat
    } else {
        n as nat
    };
    lemma_decimal_shape(a);
    lemma_decimal_shape(b);
    if m < 0 {
        assert(signed_decimal_bytes(m)[0] == 45);
        assert(signed_decimal_bytes(m).skip(1) =~= decimal_bytes(a));
    } else {
        assert(signed_decimal_bytes(m)[0] == decimal_bytes(a)[0]);
    }
    if n < 0 {
        assert(signed_decimal_bytes(n)[0] == 45);
        assert(signed_decimal_bytes(n).skip(1) =~= decimal_bytes(b));
    } else {
        assert(signed_decimal_bytes(n)[0] == decimal_bytes(b)[0]);
    }
    lemma_decimal_unique(a, b);
}

/// A byte string is told by its encoding, whatever follows.
proof fn lemma_bytes_unique(a: Seq<u8>, b: Seq<u8>, x: Seq<u8>, y: Seq<u8>)
    requires
        encode_bytes(a) + x == encode_bytes(b) + y,
    ensures
        a == b,
        x == y,
{
    lemma_decimal_shape(a.len());
    lemma_decimal_shape(b.len());
    assert(encode_bytes(a) + x =~= decimal_bytes(a.len()) + seq![58u8] + (a + x));
    assert(encode_bytes(b) + y =~= decimal_bytes(b.len()) + seq![58u8] + (b + y));
    lemma_marked(decimal_bytes(a.len()), decimal_bytes(b.len()), 58, a + x, b + y);
    lemma_decimal_unique(a.len(), b.len());
    assert(a =~= (a + x).take(a.len() as int));
    assert(b =~= (b + y).take(b.len() as int));
    assert(x =~= (a + x).skip(a.len() as int));
    assert(y =~= (b + y).skip(b.len() as int));
}

proof fn lemma_integer_unique(m: int, n: int, x: Seq<u8>, y: Seq<u8>)
    requires
        encode(Bencode::Integer(m)) + x == encode(Bencode::Integer(n)) + y,
    ensures
        m == n,
        x == y,
{
    let a = signed_decimal_bytes(m);
    let b = signed_decimal_bytes(n);
    let s = encode(Bencode::Integer(m)) + x;
    let t = encode(Bencode::Integer(n)) + y;
    lemma_signed_plain(m);
    lemma_signed_plain(n);
    assert(s.skip(1) =~= a + seq![101u8] + x);
    assert(t.skip(1) =~= b + seq![101u8] + y);
    lemma_marked(a, b, 101, x, y);
    lemma_signed_unique(m, n);
}

/// A number in decimal does not hold the end mark.
proof fn lemma_signed_plain(n: int)
    ensures
        forall|i: int|
            0 <= i < signed_decimal_bytes(n).len() ==> #[trigger] signed_decimal_bytes(n)[i] != 101,
{
    let a = if n < 0 {
        (-n) as nat
    } else {
        n as nat
    };
    lemma_decimal_shape(a);
    assert forall|i: int| 0 <= i < signed_decimal_bytes(n).len() implies #[trigger] signed_decimal_bytes(
        n,
    )[i] != 101 by {
        if n < 0 {
            if i > 0 {
                assert(signed_decimal_bytes(n)[i] == decimal_bytes(a)[i - 1]);
            }
        } else {
            assert(signed_decimal_bytes(n)[i] == decimal_bytes(a)[i]);
        }
    }
}

/// The kind of a value is told by the first byte of its encoding.
proof fn lemma_head(b: Bencode)
    ensures
        encode(b).len() > 0,
        match b {
            Bencode::Integer(_) => encode(b)[0] == 105,
            Bencode::Bytes(_) => 48 <= encode(b)[0] <= 57,
            Bencode::List(_) => encode(b)[0] == 108,
            Bencode::Dict(_) => encode(b)[0] == 100,
        },
{
    if let Bencode::Bytes(s) = b {
        lemma_decimal_shape(s.len());
        assert(encode(b)[0] == decimal_bytes(s.len())[0]);
    }
}

/// A value is told by its encoding, whatever follows.
proof fn lemma_value_unique(a: Bencode, b: Bencode, x: Seq<u8>, y: Seq<u8>)
    requires
        encode(a) + x == encode(b) + y,
    ensures
        a == b,
        x == y,
    decreases a, 0int,
{
    lemma_head(a);
    lemma_head(b);
    assert((encode(a) + x)[0] == encode(a)[0]);
    assert((encode(b) + y)[0] == encode(b)[0]);
    match (a, b) {
        (Bencode::Integer(m), Bencode::Integer(n)) => {
            lemma_integer_unique(m, n, x, y);
        },
        (Bencode::Bytes(s), Bencode::Bytes(t)) => {
            lemma_bytes_unique(s, t, x, y);
        },
        (Bencode::List(l), Bencode::List(m)) => {
            assert((encode(a) + x).skip(1) =~= encode_items(l) + seq![101u8] + x);
            assert((encode(b) + y).skip(1) =~= encode_items(m) + seq![101u8] + y);
            lemma_items_unique(l, m, x, y);
        },
        (Bencode::Dict(e), Bencode::Dict(f)) => {
            assert((encode(a) + x).skip(1) =~= encode_entries(e) + seq![101u8] + x);
            assert((encode(b) + y).skip(1) =~= encode_entries(f) + seq![101u8] + y);
            lemma_entries_unique(e, f, x, y);
        },
        _ => {},
    }
}

proof fn lemma_items_unique(l: Seq<Bencode>, m: Seq<Bencode>, x: Seq<u8>, y: Seq<u8>)
    requires
        encode_items(l) + seq![101u8] + x == encode_items(m) + seq![101u8] + y,
    ensures
        l == m,
        x == y,
    decreases l, 1int,
{
    let s = encode_items(l) + seq![101u8] + x;
    let t = encode_items(m) + seq![101u8] + y;
    if l.len() > 0 {
        lemma_first_item(l);
        lemma_encode_head(l[0]);
        assert(s[0] == encode(l[0])[0]);
    } else {
        assert(s[0] == 101);
    }
    if m.len() > 0 {
        lemma_first_item(m);
        lemma_encode_head(m[0]);
        assert(t[0] == encode(m[0])[0]);
    } else {
        assert(t[0] == 101);
    }
    if l.len() > 0 {
        let r = encode_items(l.skip(1)) + seq![101u8] + x;
        let q = encode_items(m.skip(1)) + seq![101u8] + y;
        assert(s =~= encode(l[0]) + r);
        assert(t =~= encode(m[0]) + q);
        lemma_value_unique(l[0], m[0], r, q);
        lemma_items_unique(l.skip(1), m.skip(1), x, y);
        assert(l =~= seq![l[0]] + l.skip(1));
        assert(m =~= seq![m[0]] + m.skip(1));
    } else {
        assert(l =~= m);
        assert(s.skip(1) =~= x);
        assert(t.skip(1) =~= y);
    }
}

/// The encodings of entries and an end mark, as the first key and what follows
/// it.
proof fn lemma_entries_split(e: Seq<(Seq<char>, Bencode)>, x: Seq<u8>)
    requires
        e.len() > 0,
    ensures
        encode_entries(e) + seq![101u8] + x == encode_bytes(encode_utf8(e[0].0)) + (encode(e[0].1)
            + (encode_entries(e.skip(1)) + seq![101u8] + x)),
        (encode_entries(e) + seq![101u8] + x)[0] != 101,
{
    lemma_first_entry(e);
    let k = encode_bytes(encode_utf8(e[0].0));
    let v = encode(e[0].1);
    let r = encode_entries(e.skip(1));
    lemma_head(Bencode::Bytes(encode_utf8(e[0].0)));
    assert(k + v + r + seq![101u8] + x =~= k + (v + (r + seq![101u8] + x)));
    assert((k + v + r + seq![101u8] + x)[0] == k[0]);
}

/// The end mark alone.
proof fn lemma_entries_end(e: Seq<(Seq<char>, Bencode)>, x: Seq<u8>)
    requires
        e.len() == 0,
    ensures
        (encode_entries(e) + seq![101u8] + x)[0] == 101,
        (encode_entries(e) + seq![101u8] + x).skip(1) == x,
{
    assert((encode_entries(e) + seq![101u8] + x).skip(1) =~= x);
}

proof fn lemma_entries_unique(
    e: Seq<(Seq<char>, Bencode)>,
    f: Seq<(Seq<char>, Bencode)>,
    x: Seq<u8>,
    y: Seq<u8>,
)
    requires
        encode_entries(e) + seq![101u8] + x == encode_entries(f) + seq![101u8] + y,
    ensures
        e == f,
        x == y,
    decreases e, 1int,
{
    if e.len() > 0 {
        lemma_entries_split(e, x);
    } else {
        lemma_entries_end(e, x);
    }
    if f.len() > 0 {
        lemma_entries_split(f, y);
    } else {
        lemma_entries_end(f, y);
    }
    if e.len() > 0 {
        let r = encode_entries(e.skip(1)) + seq![101u8] + x;
        let q = encode_entries(f.skip(1)) + seq![101u8] + y;
        lemma_bytes_unique(
            encode_utf8(e[0].0),
            encode_utf8(f[0].0),
            encode(e[0].1) + r,
            encode(f[0].1) + q,
        );
        lemma_encode_injective(e[0].0, f[0].0);
        lemma_value_unique(e[0].1, f[0].1, r, q);
        lemma_entries_unique(e.skip(1), f.skip(1), x, y);
        assert(e[0] == f[0]);
        assert(e =~= seq![e[0]] + e.skip(1));
        assert(f =~= seq![f[0]] + f.skip(1));
    } else {
        assert(e =~= f);
    }
}

proof fn lemma_first_item(l: Seq<Bencode>)
    requires
        l.len() > 0,
    ensures
        encode_items(l) == encode(l[0]) + encode_items(l.skip(1)),
{
    let one = seq![l[0]];
    assert(l =~= one + l.skip(1));
    lemma_encode_items_concat(one, l.skip(1));
    assert(one.drop_last() =~= Seq::<Bencode>::empty());
    assert(encode_items(one.drop_last()) =~= Seq::<u8>::empty());
    assert(one.last() == l[0]);
    assert(encode_items(one) =~= encode(l[0]));
}

proof fn lemma_first_entry(e: Seq<(Seq<char>, Bencode)>)
    requires
        e.len() > 0,
    ensures
        encode_entries(e) == encode_bytes(encode_utf8(e[0].0)) + encode(e[0].1) + encode_entries(
            e.skip(1),
        ),
{
    let one = seq![e[0]];
    assert(e =~= one + e.skip(1));
    lemma_encode_entries_concat(one, e.skip(1));
    assert(one.drop_last() =~= Seq::<(Seq<char>, Bencode)>::empty());
    assert(encode_entries(one.drop_last()) =~= Seq::<u8>::empty());
    assert(one.last() == e[0]);
    assert(encode_entries(one) =~= encode_bytes(encode_utf8(e[0].0)) + encode(e[0].1));
}

/// Two values with the same encoding are the same value, however deep they
/// nest.
pub proof fn law_encode_injective(a: Bencode, b: Bencode)
    requires
        encode(a) == encode(b),
    ensures
        a == b,
{
    lemma_value_unique(a, b, seq![], seq![]);
}

/// No encoding starts with the encoding of another value.
pub proof fn law_prefix_free(a: Bencode, b: Bencode)
    requires
        encode(a).is_prefix_of(encode(b)),
    ensures
        a == b,
{
    let rest = encode(b).skip(encode(a).len() as int);
    assert(encode(b) =~= encode(a) + rest);
    assert(encode(b) + Seq::<u8>::empty() =~= encode(b));
    lemma_value_unique(a, b, rest, seq![]);
}

/// The encoding of a value is refused when anything is missing at its end.
pub proof fn law_truncated_refused(b: Bencode, n: int)
    requires
        parseable(b, MAX_PARSE_DEPTH as int),
        0 <= n < encode(b).len(),
    ensures
        parsed(encode(b).take(n)) is Err,
{
    let whole = encode(b);
    let part = whole.take(n);
    assert(whole.subrange(0, part.len() as int) =~= part);
    assert(stands_in(part, whole, 0));
    lemma_value_shift(part, whole, 0, 0, 0);
    lemma_value_advances(part, 0, 0);
    assert(whole.subrange(0, whole.len() as int) =~= whole);
    lemma_value_round_trip(whole, 0, 0, b);
    if let Ok((v, next)) = parse_value_at(part, 0, 0) {
        assert(parse_value_at(whole, 0, 0) == Ok::<(Bencode, int), Fault>((v, next)));
    }
}

} // verus!

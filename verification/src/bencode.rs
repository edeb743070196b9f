//! Bencoding: the values, their encoding, and a parser.
//!
//! A value is modelled by [`Bencode`], in which a dictionary is the sequence
//! of its entries in ascending order of the keys' bytes.

use crate::bytes::{bytes_equal, bytes_less, lex_less};
use crate::bytes::{lemma_lex_irreflexive, lemma_lex_total, lemma_lex_transitive};
use crate::text::lemma_encode_injective;
use vstd::prelude::*;
use vstd::utf8::{decode_utf8, encode_utf8, valid_utf8};

pub mod codes;
pub mod grammar;
pub mod laws;
pub mod locality;
pub mod parser;

pub use crate::bencode::parser::{extract_info_raw, BencodeParser};

verus! {

/// How deeply containers may nest in parsed data.
pub const MAX_PARSE_DEPTH: usize = 128;

/// A bencoded value.
#[derive(Debug, PartialEq)]
pub enum BencodeValue {
    Integer(i64),
    ByteString(Vec<u8>),
    List(Vec<BencodeValue>),
    Dict(BencodeDict),
}

/// A dictionary: entries with distinct keys, in ascending order of the keys'
/// bytes.
#[derive(Debug, PartialEq)]
pub struct BencodeDict {
    entries: Vec<(String, BencodeValue)>,
}

/// The mathematical model of a bencoded value.
pub enum Bencode {
    Integer(int),
    Bytes(Seq<u8>),
    List(Seq<Bencode>),
    Dict(Seq<(Seq<char>, Bencode)>),
}

/// The model of a value.
pub closed spec fn model(v: BencodeValue) -> Bencode
    decreases v,
{
    match v {
        BencodeValue::Integer(i) => Bencode::Integer(i as int),
        BencodeValue::ByteString(b) => Bencode::Bytes(b@),
        BencodeValue::List(l) => Bencode::List(
            Seq::new(
                l@.len(),
                |i: int|
                    if 0 <= i < l@.len() {
                        model(l@[i])
                    } else {
                        arbitrary()
                    },
            ),
        ),
        BencodeValue::Dict(d) => Bencode::Dict(
            Seq::new(
                d.entries@.len(),
                |i: int|
                    if 0 <= i < d.entries@.len() {
                        (d.entries@[i].0@, model(d.entries@[i].1))
                    } else {
                        arbitrary()
                    },
            ),
        ),
    }
}

impl View for BencodeValue {
    type V = Bencode;

    open spec fn view(&self) -> Bencode {
        model(*self)
    }
}

impl View for BencodeDict {
    type V = Seq<(Seq<char>, Bencode)>;

    closed spec fn view(&self) -> Seq<(Seq<char>, Bencode)> {
        entry_models(self.entries@)
    }
}

/// The models of entries.
closed spec fn entry_models(s: Seq<(String, BencodeValue)>) -> Seq<(Seq<char>, Bencode)> {
    Seq::new(s.len(), |i: int| (s[i].0@, model(s[i].1)))
}

/// The models of a sequence of values.
pub open spec fn models(s: Seq<BencodeValue>) -> Seq<Bencode> {
    Seq::new(s.len(), |i: int| s[i]@)
}

/// The model of each kind of value.
pub broadcast proof fn lemma_model(v: BencodeValue)
    ensures
        #![trigger v@]
        match v {
            BencodeValue::Integer(i) => v@ == Bencode::Integer(i as int),
            BencodeValue::ByteString(b) => v@ == Bencode::Bytes(b@),
            BencodeValue::List(l) => v@ == Bencode::List(models(l@)),
            BencodeValue::Dict(d) => v@ == Bencode::Dict(d@),
        },
{
    match v {
        BencodeValue::List(l) => {
            assert(v@->List_0 =~= models(l@));
        },
        BencodeValue::Dict(d) => {
            assert(v@->Dict_0 =~= d@);
        },
        _ => {},
    }
}

/// Key `a` comes before key `b`.
pub open spec fn key_less(a: Seq<char>, b: Seq<char>) -> bool {
    lex_less(encode_utf8(a), encode_utf8(b))
}

/// Entries are in ascending order of their keys, so no key occurs twice.
pub open spec fn sorted(e: Seq<(Seq<char>, Bencode)>) -> bool {
    forall|i: int, j: int| 0 <= i < j < e.len() ==> key_less((#[trigger] e[i]).0, (#[trigger] e[j]).0)
}

/// The value that a dictionary gives to a key.
pub open spec fn lookup(e: Seq<(Seq<char>, Bencode)>, key: Seq<char>) -> Option<Bencode>
    decreases e.len(),
{
    if e.len() == 0 {
        None
    } else if e[0].0 == key {
        Some(e[0].1)
    } else {
        lookup(e.skip(1), key)
    }
}

/// How many entries have a key before `key`.
pub open spec fn rank(e: Seq<(Seq<char>, Bencode)>, key: Seq<char>) -> int
    decreases e.len(),
{
    if e.len() == 0 || !key_less(e[0].0, key) {
        0
    } else {
        1 + rank(e.skip(1), key)
    }
}

/// The dictionary with `key` bound to `value`, replacing an earlier binding.
pub open spec fn inserted(e: Seq<(Seq<char>, Bencode)>, key: Seq<char>, value: Bencode) -> Seq<
    (Seq<char>, Bencode),
> {
    let r = rank(e, key);
    if r < e.len() && e[r].0 == key {
        e.update(r, (key, value))
    } else {
        e.insert(r, (key, value))
    }
}

/// Where a key belongs among sorted entries.
pub proof fn lemma_rank(e: Seq<(Seq<char>, Bencode)>, key: Seq<char>)
    ensures
        0 <= rank(e, key) <= e.len(),
        forall|i: int| 0 <= i < rank(e, key) ==> key_less((#[trigger] e[i]).0, key),
        rank(e, key) < e.len() ==> !key_less(e[rank(e, key)].0, key),
    decreases e.len(),
{
    if e.len() > 0 && key_less(e[0].0, key) {
        lemma_rank(e.skip(1), key);
        assert forall|i: int| 0 <= i < rank(e, key) implies key_less((#[trigger] e[i]).0, key) by {
            if i > 0 {
                assert(e.skip(1)[i - 1] == e[i]);
            }
        }
    }
}

/// Keys are ordered totally.
proof fn lemma_key_order(a: Seq<char>, b: Seq<char>)
    ensures
        !key_less(a, a),
        key_less(a, b) ==> !key_less(b, a),
        a != b ==> key_less(a, b) || key_less(b, a),
{
    lemma_lex_irreflexive(encode_utf8(a));
    lemma_lex_total(encode_utf8(a), encode_utf8(b));
    if encode_utf8(a) == encode_utf8(b) {
        lemma_encode_injective(a, b);
    }
}

/// Inserting keeps the entries sorted.
pub proof fn lemma_inserted_sorted(e: Seq<(Seq<char>, Bencode)>, key: Seq<char>, value: Bencode)
    requires
        sorted(e),
    ensures
        sorted(inserted(e, key, value)),
{
    let r = rank(e, key);
    let n = inserted(e, key, value);
    lemma_rank(e, key);
    if !(r < e.len() && e[r].0 == key) {
        assert forall|i: int, j: int| 0 <= i < j < n.len() implies key_less(
            (#[trigger] n[i]).0,
            (#[trigger] n[j]).0,
        ) by {
            if r < e.len() {
                lemma_key_order(key, e[r].0);
            }
            if j == r {
                assert(n[i] == e[i]);
            } else if i == r {
                assert(n[j] == e[j - 1]);
                if j - 1 > r {
                    assert(key_less(e[r].0, e[j - 1].0));
                    lemma_lex_transitive(
                        encode_utf8(key),
                        encode_utf8(e[r].0),
                        encode_utf8(e[j - 1].0),
                    );
                }
            } else if i < r && j > r {
                assert(key_less(e[i].0, e[j - 1].0));
            } else if i > r {
                assert(key_less(e[i - 1].0, e[j - 1].0));
            }
        }
    }
}

/// A key is bound to the value at any position that holds the key.
pub proof fn lemma_lookup_at(e: Seq<(Seq<char>, Bencode)>, i: int)
    requires
        sorted(e),
        0 <= i < e.len(),
    ensures
        lookup(e, e[i].0) == Some(e[i].1),
    decreases e.len(),
{
    if i > 0 {
        lemma_key_order(e[0].0, e[i].0);
        assert(key_less(e[0].0, e[i].0));
        assert(sorted(e.skip(1)));
        lemma_lookup_at(e.skip(1), i - 1);
        assert(e.skip(1)[i - 1] == e[i]);
    }
}

/// A key that no position holds is not bound.
pub proof fn lemma_lookup_none(e: Seq<(Seq<char>, Bencode)>, key: Seq<char>)
    requires
        forall|i: int| 0 <= i < e.len() ==> (#[trigger] e[i]).0 != key,
    ensures
        lookup(e, key) is None,
    decreases e.len(),
{
    if e.len() > 0 {
        assert forall|i: int| 0 <= i < e.skip(1).len() implies (#[trigger] e.skip(1)[i]).0
            != key by {
            assert(e.skip(1)[i] == e[i + 1]);
        }
        lemma_lookup_none(e.skip(1), key);
    }
}

/// A bound key stands at some position.
proof fn lemma_lookup_some(e: Seq<(Seq<char>, Bencode)>, key: Seq<char>) -> (i: int)
    requires
        lookup(e, key) is Some,
    ensures
        0 <= i < e.len(),
        e[i].0 == key,
        lookup(e, key) == Some(e[i].1),
    decreases e.len(),
{
    if e[0].0 == key {
        0
    } else {
        let k = lemma_lookup_some(e.skip(1), key);
        assert(e.skip(1)[k] == e[k + 1]);
        k + 1
    }
}

/// After an insertion the inserted key has the new value and every other key
/// has the value it had.
pub proof fn lemma_inserted_lookup(
    e: Seq<(Seq<char>, Bencode)>,
    key: Seq<char>,
    value: Bencode,
    other: Seq<char>,
)
    requires
        sorted(e),
    ensures
        lookup(inserted(e, key, value), key) == Some(value),
        other != key ==> lookup(inserted(e, key, value), other) == lookup(e, other),
{
    let r = rank(e, key);
    let n = inserted(e, key, value);
    lemma_rank(e, key);
    lemma_inserted_sorted(e, key, value);
    lemma_lookup_at(n, r);
    assert(n[r] == (key, value));
    let replaced = r < e.len() && e[r].0 == key;
    if other != key {
        if lookup(e, other) is Some {
            let i = lemma_lookup_some(e, other);
            let j = if replaced || i < r {
                i
            } else {
                i + 1
            };
            assert(n[j] == e[i]);
            lemma_lookup_at(n, j);
        } else {
            assert forall|i: int| 0 <= i < n.len() implies (#[trigger] n[i]).0 != other by {
                if i != r {
                    let k = if replaced || i < r {
                        i
                    } else {
                        i - 1
                    };
                    assert(n[i] == e[k]);
                    lemma_lookup_at(e, k);
                }
            }
            lemma_lookup_none(n, other);
        }
    }
}

/// The dictionary of the given bindings; a later binding of a key replaces an
/// earlier one.
pub open spec fn dictionary(bindings: Seq<(Seq<char>, Bencode)>) -> Seq<(Seq<char>, Bencode)>
    decreases bindings.len(),
{
    if bindings.len() == 0 {
        seq![]
    } else {
        inserted(dictionary(bindings.drop_last()), bindings.last().0, bindings.last().1)
    }
}

/// One more binding is one more insertion.
pub proof fn lemma_dictionary_push(
    bindings: Seq<(Seq<char>, Bencode)>,
    key: Seq<char>,
    value: Bencode,
)
    ensures
        dictionary(bindings.push((key, value))) == inserted(dictionary(bindings), key, value),
{
    assert(bindings.push((key, value)).drop_last() =~= bindings);
}

/// Two bindings are two insertions.
pub proof fn lemma_dictionary_2(a: (Seq<char>, Bencode), b: (Seq<char>, Bencode))
    ensures
        dictionary(seq![a, b]) == inserted(inserted(seq![], a.0, a.1), b.0, b.1),
{
    let e = Seq::<(Seq<char>, Bencode)>::empty();
    lemma_dictionary_push(e, a.0, a.1);
    lemma_dictionary_push(e.push(a), b.0, b.1);
    assert(seq![a, b] =~= e.push(a).push(b));
}

/// Three bindings are three insertions.
pub proof fn lemma_dictionary_3(
    a: (Seq<char>, Bencode),
    b: (Seq<char>, Bencode),
    c: (Seq<char>, Bencode),
)
    ensures
        dictionary(seq![a, b, c]) == inserted(
            inserted(inserted(seq![], a.0, a.1), b.0, b.1),
            c.0,
            c.1,
        ),
{
    lemma_dictionary_2(a, b);
    lemma_dictionary_push(seq![a, b], c.0, c.1);
    assert(seq![a, b, c] =~= seq![a, b].push(c));
}

/// A dictionary of bindings is sorted.
pub proof fn lemma_dictionary_sorted(bindings: Seq<(Seq<char>, Bencode)>)
    ensures
        sorted(dictionary(bindings)),
    decreases bindings.len(),
{
    if bindings.len() > 0 {
        lemma_dictionary_sorted(bindings.drop_last());
        lemma_inserted_sorted(
            dictionary(bindings.drop_last()),
            bindings.last().0,
            bindings.last().1,
        );
    }
}

/// A key has the value of its last binding.
pub proof fn lemma_dictionary_lookup(bindings: Seq<(Seq<char>, Bencode)>, i: int)
    requires
        0 <= i < bindings.len(),
        forall|j: int| i < j < bindings.len() ==> (#[trigger] bindings[j]).0 != bindings[i].0,
    ensures
        lookup(dictionary(bindings), bindings[i].0) == Some(bindings[i].1),
    decreases bindings.len(),
{
    let init = bindings.drop_last();
    lemma_dictionary_sorted(init);
    lemma_inserted_lookup(
        dictionary(init),
        bindings.last().0,
        bindings.last().1,
        bindings[i].0,
    );
    if i < bindings.len() - 1 {
        assert(bindings[bindings.len() - 1].0 != bindings[i].0);
        lemma_dictionary_lookup(init, i);
    }
}

/// A key without a binding has no value.
pub proof fn lemma_dictionary_unbound(bindings: Seq<(Seq<char>, Bencode)>, key: Seq<char>)
    requires
        forall|j: int| 0 <= j < bindings.len() ==> (#[trigger] bindings[j]).0 != key,
    ensures
        lookup(dictionary(bindings), key) is None,
    decreases bindings.len(),
{
    if bindings.len() > 0 {
        let init = bindings.drop_last();
        assert(bindings[bindings.len() - 1].0 != key);
        lemma_dictionary_sorted(init);
        lemma_inserted_lookup(dictionary(init), bindings.last().0, bindings.last().1, key);
        lemma_dictionary_unbound(init, key);
    }
}

/// Every entry of a dictionary is one of its bindings.
pub proof fn lemma_dictionary_entries(bindings: Seq<(Seq<char>, Bencode)>, k: int) -> (i: int)
    requires
        0 <= k < dictionary(bindings).len(),
    ensures
        0 <= i < bindings.len(),
        bindings[i] == dictionary(bindings)[k],
    decreases bindings.len(),
{
    let init = bindings.drop_last();
    let e = dictionary(init);
    let (key, value) = bindings.last();
    let r = rank(e, key);
    lemma_rank(e, key);
    if k == r {
        bindings.len() - 1
    } else if k < r || (r < e.len() && e[r].0 == key) {
        let i = lemma_dictionary_entries(init, k);
        i
    } else {
        let i = lemma_dictionary_entries(init, k - 1);
        i
    }
}

/// Every dictionary in the value is sorted.
pub open spec fn well_formed(b: Bencode) -> bool
    decreases b,
{
    match b {
        Bencode::List(l) => forall|i: int| 0 <= i < l.len() ==> well_formed(#[trigger] l[i]),
        Bencode::Dict(e) => sorted(e) && forall|i: int|
            0 <= i < e.len() ==> well_formed((#[trigger] e[i]).1),
        _ => true,
    }
}

impl BencodeDict {
    /// The keys ascend strictly.
    #[verifier::type_invariant]
    spec fn in_order(self) -> bool {
        sorted(entry_models(self.entries@))
    }

    /// The dictionary without entries.
    pub fn new() -> (d: Self)
        ensures
            d@ == Seq::<(Seq<char>, Bencode)>::empty(),
    {
        let d = BencodeDict { entries: Vec::new() };
        assert(d@ =~= Seq::<(Seq<char>, Bencode)>::empty());
        d
    }

    /// The number of entries.
    pub fn len(&self) -> (n: usize)
        ensures
            n == self@.len(),
    {
        self.entries.len()
    }

    /// The key of the entry at a position.
    pub fn key_at(&self, i: usize) -> (k: &str)
        requires
            i < self@.len(),
        ensures
            k@ == self@[i as int].0,
    {
        self.entries[i].0.as_str()
    }

    /// The value bound to a key.
    pub fn get(&self, key: &str) -> (r: Option<&BencodeValue>)
        ensures
            match r {
                Some(v) => lookup(self@, key@) == Some(v@),
                None => lookup(self@, key@) is None,
            },
    {
        let mut i: usize = 0;
        assert(self@.skip(0) =~= self@);
        while i < self.entries.len()
            invariant
                i <= self.entries.len(),
                self@.len() == self.entries.len(),
                lookup(self@, key@) == lookup(self@.skip(i as int), key@),
            decreases self.entries.len() - i,
        {
            let entry = &self.entries[i];
            assert(self@.skip(i as int).skip(1) =~= self@.skip(i + 1));
            if bytes_equal(entry.0.as_str().as_bytes(), key.as_bytes()) {
                proof {
                    lemma_encode_injective(entry.0@, key@);
                }
                return Some(&entry.1);
            }
            i += 1;
        }
        None
    }

    /// Whether a key is bound.
    pub fn contains_key(&self, key: &str) -> (r: bool)
        ensures
            r == (lookup(self@, key@) is Some),
    {
        self.get(key).is_some()
    }

    /// Binds a key to a value, replacing an earlier binding of the key.
    pub fn insert(&mut self, key: String, value: BencodeValue)
        ensures
            final(self)@ == inserted(old(self)@, key@, value@),
    {
        let ghost before = self@;
        let ghost k = key@;
        let ghost v = value@;
        proof {
            use_type_invariant(&*self);
            lemma_inserted_sorted(before, k, v);
        }
        let mut entries: Vec<(String, BencodeValue)> = Vec::new();
        assert(sorted(entry_models(entries@)));
        std::mem::swap(&mut self.entries, &mut entries);
        assert(entry_models(entries@) == before);
        let mut i: usize = 0;
        assert(before.skip(0) =~= before);
        while i < entries.len() && bytes_less(
            entries[i].0.as_str().as_bytes(),
            key.as_str().as_bytes(),
        )
            invariant
                i <= entries.len(),
                before.len() == entries.len(),
                entry_models(entries@) == before,
                rank(before, key@) == i + rank(before.skip(i as int), key@),
            decreases entries.len() - i,
        {
            assert(before[i as int].0 == entries@[i as int].0@);
            assert(before.skip(i as int).skip(1) =~= before.skip(i + 1));
            i += 1;
        }
        if i < entries.len() {
            assert(before[i as int].0 == entries@[i as int].0@);
        }
        if i < entries.len() && bytes_equal(
            entries[i].0.as_str().as_bytes(),
            key.as_str().as_bytes(),
        ) {
            proof {
                lemma_encode_injective(entries@[i as int].0@, key@);
            }
            entries.set(i, (key, value));
        } else {
            entries.insert(i, (key, value));
        }
        assert(entry_models(entries@) =~= inserted(before, k, v));
        *self = BencodeDict { entries };
    }
}

impl BencodeValue {
    /// The integer, if the value is one.
    pub fn as_integer(&self) -> (r: Option<i64>)
        ensures
            match self@ {
                Bencode::Integer(i) => r is Some && r->0 == i,
                _ => r is None,
            },
    {
        broadcast use lemma_model;

        match self {
            BencodeValue::Integer(i) => Some(*i),
            _ => None,
        }
    }

    /// The bytes, if the value is a byte string.
    pub fn as_bytes(&self) -> (r: Option<&[u8]>)
        ensures
            match self@ {
                Bencode::Bytes(b) => r is Some && r->0@ == b,
                _ => r is None,
            },
    {
        broadcast use lemma_model;

        match self {
            BencodeValue::ByteString(b) => Some(b.as_slice()),
            _ => None,
        }
    }

    /// The text, if the value is a byte string that holds UTF-8.
    pub fn as_string(&self) -> (r: Option<&str>)
        ensures
            match self@ {
                Bencode::Bytes(b) => if valid_utf8(b) {
                    r is Some && r->0@ == decode_utf8(b)
                } else {
                    r is None
                },
                _ => r is None,
            },
    {
        broadcast use lemma_model;

        match self {
            BencodeValue::ByteString(b) => core::str::from_utf8(b.as_slice()).ok(),
            _ => None,
        }
    }

    /// The items, if the value is a list.
    pub fn as_list(&self) -> (r: Option<&[BencodeValue]>)
        ensures
            match self@ {
                Bencode::List(l) => r is Some && models(r->0@) == l,
                _ => r is None,
            },
    {
        broadcast use lemma_model;

        match self {
            BencodeValue::List(l) => Some(l.as_slice()),
            _ => None,
        }
    }

    /// The dictionary, if the value is one.
    pub fn as_dict(&self) -> (r: Option<&BencodeDict>)
        ensures
            match self@ {
                Bencode::Dict(e) => r is Some && r->0@ == e,
                _ => r is None,
            },
    {
        broadcast use lemma_model;

        match self {
            BencodeValue::Dict(d) => Some(d),
            _ => None,
        }
    }

    /// The value that a dictionary binds to a key.
    pub fn dict_get(&self, key: &str) -> (r: Option<&BencodeValue>)
        ensures
            match r {
                Some(v) => field(self@, key@) == Some(v@),
                None => field(self@, key@) is None,
            },
    {
        match self.as_dict() {
            Some(d) => d.get(key),
            None => None,
        }
    }
}

fn copy_value(v: &BencodeValue) -> (r: BencodeValue)
    ensures
        r@ == v@,
    decreases v,
{
    broadcast use lemma_model;

    match v {
        BencodeValue::Integer(i) => BencodeValue::Integer(*i),
        BencodeValue::ByteString(b) => {
            BencodeValue::ByteString(vstd::slice::slice_to_vec(b.as_slice()))
        },
        BencodeValue::List(l) => {
            let mut out: Vec<BencodeValue> = Vec::new();
            let mut i: usize = 0;
            while i < l.len()
                invariant
                    i <= l.len(),
                    v is List,
                    *l == v->List_0,
                    out@.len() == i,
                    forall|k: int| 0 <= k < i ==> (#[trigger] out@[k])@ == l@[k]@,
                decreases l.len() - i,
            {
                assert(decreases_to!(*v => v->List_0));
                assert(decreases_to!(*l => l[i as int]));
                out.push(copy_value(&l[i]));
                i += 1;
            }
            assert(models(out@) =~= models(l@));
            BencodeValue::List(out)
        },
        BencodeValue::Dict(d) => {
            assert(decreases_to!(*v => v->Dict_0));
            BencodeValue::Dict(copy_dict(d))
        },
    }
}

fn copy_dict(d: &BencodeDict) -> (r: BencodeDict)
    ensures
        r@ == d@,
    decreases d,
{
    let mut out: Vec<(String, BencodeValue)> = Vec::new();
    let mut i: usize = 0;
    while i < d.entries.len()
        invariant
            i <= d.entries.len(),
            out@.len() == i,
            forall|k: int|
                0 <= k < i ==> (#[trigger] out@[k]).0@ == d.entries@[k].0@ && out@[k].1@
                    == d.entries@[k].1@,
        decreases d.entries.len() - i,
    {
        assert(decreases_to!(*d => d.entries));
        assert(decreases_to!(d.entries => d.entries[i as int]));
        let key: String = d.entries[i].0.clone();
        out.push((key, copy_value(&d.entries[i].1)));
        i += 1;
    }
    proof {
        use_type_invariant(d);
        assert(entry_models(out@) =~= entry_models(d.entries@));
    }
    BencodeDict { entries: out }
}

impl Clone for BencodeValue {
    fn clone(&self) -> (r: Self)
        ensures
            r@ == self@,
    {
        copy_value(self)
    }
}

impl Clone for BencodeDict {
    fn clone(&self) -> (r: Self)
        ensures
            r@ == self@,
    {
        copy_dict(self)
    }
}

/// The value that a dictionary binds to a key; nothing for other values.
pub open spec fn field(b: Bencode, key: Seq<char>) -> Option<Bencode> {
    match b {
        Bencode::Dict(e) => lookup(e, key),
        _ => None,
    }
}

} // verus!

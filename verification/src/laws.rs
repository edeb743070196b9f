//! What the client does, stated on bytes, bits and numbers alone.
//!
//! The contracts of the functions are exact; the laws here say what they come
//! to, without the functions that the contracts are written with.

pub mod bencoding;
pub mod blocks;
pub mod choice;
pub mod choking;
pub mod exchange;
pub mod limits;
pub mod lookups;
pub mod magnets;
pub mod messages;
pub mod nodes;
pub mod pieces;
pub mod queue;
pub mod replies;
pub mod sessions;
pub mod shown;
pub mod tables;
pub mod torrents;
pub mod trackers;
pub mod uploads;
pub mod webseeds;
pub mod wire;

use crate::bencode::{lookup, Bencode};
use crate::bitfield::{bit_of, has_bit};
use crate::bytes::{be_value, lex_less};
use crate::net::{compact_v4, compact_v6, SocketAddr, SocketAddrV4, SocketAddrV6};
use crate::types::xor_bytes;
use vstd::prelude::*;

verus! {

/// The number that `n` bytes from `at` on write, the highest first.
pub open spec fn number(data: Seq<u8>, at: int, n: int) -> int
    decreases n,
{
    if n <= 0 {
        0
    } else {
        256 * number(data, at, n - 1) + data[at + n - 1]
    }
}

pub proof fn lemma_number(data: Seq<u8>, at: int, n: int)
    requires
        0 <= at,
        0 <= n,
        at + n <= data.len(),
    ensures
        number(data, at, n) == be_value(data.subrange(at, at + n)),
    decreases n,
{
    if n > 0 {
        lemma_number(data, at, n - 1);
        assert(data.subrange(at, at + n).drop_last() =~= data.subrange(at, at + n - 1));
    }
}

/// Six bytes from `at` on write an address and its port.
pub open spec fn writes_v4(data: Seq<u8>, at: int, a: SocketAddrV4) -> bool {
    a.ip.bits == number(data, at, 4) && a.port == number(data, at + 4, 2)
}

/// Eighteen bytes from `at` on write an address and its port.
pub open spec fn writes_v6(data: Seq<u8>, at: int, a: SocketAddrV6) -> bool {
    a.ip.bits == number(data, at, 16) && a.port == number(data, at + 16, 2)
}

/// Bytes from `at` on write an address of either family and its port.
pub open spec fn writes_addr(data: Seq<u8>, at: int, a: SocketAddr) -> bool {
    match a {
        SocketAddr::V4(v) => writes_v4(data, at, v),
        SocketAddr::V6(v) => writes_v6(data, at, v),
    }
}

pub proof fn lemma_writes_v4(data: Seq<u8>, at: int, a: SocketAddrV4)
    requires
        0 <= at,
        at + 6 <= data.len(),
        writes_v4(data, at, a),
    ensures
        compact_v4(data.subrange(at, at + 6)) == a,
{
    let s = data.subrange(at, at + 6);
    lemma_number(data, at, 4);
    lemma_number(data, at + 4, 2);
    assert(s.subrange(0, 4) =~= data.subrange(at, at + 4));
    assert(s.subrange(4, 6) =~= data.subrange(at + 4, at + 6));
}

pub proof fn lemma_writes_v6(data: Seq<u8>, at: int, a: SocketAddrV6)
    requires
        0 <= at,
        at + 18 <= data.len(),
        writes_v6(data, at, a),
    ensures
        compact_v6(data.subrange(at, at + 18)) == a,
{
    let s = data.subrange(at, at + 18);
    lemma_number(data, at, 16);
    lemma_number(data, at + 16, 2);
    assert(s.subrange(0, 16) =~= data.subrange(at, at + 16));
    assert(s.subrange(16, 18) =~= data.subrange(at + 16, at + 18));
}

/// What a bit is worth, the highest first.
pub open spec fn weight(k: int) -> int {
    if k <= 0 {
        128
    } else if k == 1 {
        64
    } else if k == 2 {
        32
    } else if k == 3 {
        16
    } else if k == 4 {
        8
    } else if k == 5 {
        4
    } else if k == 6 {
        2
    } else {
        1
    }
}

/// A bit field says that a piece is there: the pieces are counted from the
/// highest bit of the first byte on.
pub open spec fn says_piece(bits: Seq<u8>, i: int) -> bool {
    0 <= i && i / 8 < bits.len() && bits[i / 8] as int / weight(i % 8) % 2 == 1
}

pub proof fn lemma_says_piece(bits: Seq<u8>, i: int)
    ensures
        says_piece(bits, i) == has_bit(bits, i),
{
    if 0 <= i && i / 8 < bits.len() {
        let b = bits[i / 8];
        assert((b >> 7u8) & 1u8 == b / 128 % 2) by (bit_vector);
        assert((b >> 6u8) & 1u8 == b / 64 % 2) by (bit_vector);
        assert((b >> 5u8) & 1u8 == b / 32 % 2) by (bit_vector);
        assert((b >> 4u8) & 1u8 == b / 16 % 2) by (bit_vector);
        assert((b >> 3u8) & 1u8 == b / 8 % 2) by (bit_vector);
        assert((b >> 2u8) & 1u8 == b / 4 % 2) by (bit_vector);
        assert((b >> 1u8) & 1u8 == b / 2 % 2) by (bit_vector);
        assert((b >> 0u8) & 1u8 == b / 1 % 2) by (bit_vector);
        assert(bit_of(b, i % 8) == ((b >> ((7 - i % 8) as u8)) & 1u8 == 1u8));
    }
}

/// An id is nearer to a target than another: at the first byte at which their
/// differences from the target are not the same, its own is less.
pub open spec fn nearer(a: Seq<u8>, b: Seq<u8>, target: Seq<u8>) -> bool {
    exists|i: int| #[trigger] decides_nearer(a, b, target, i)
}

/// The byte at `i` decides that an id is nearer.
pub open spec fn decides_nearer(a: Seq<u8>, b: Seq<u8>, target: Seq<u8>, i: int) -> bool {
    &&& 0 <= i < 20
    &&& forall|j: int| 0 <= j < i ==> #[trigger] a[j] == b[j]
    &&& (a[i] ^ target[i]) < (b[i] ^ target[i])
}

pub proof fn lemma_nearer(a: Seq<u8>, b: Seq<u8>, target: Seq<u8>)
    requires
        a.len() == 20,
        b.len() == 20,
        target.len() == 20,
    ensures
        nearer(a, b, target) == lex_less(xor_bytes(a, target), xor_bytes(b, target)),
{
    let x = xor_bytes(a, target);
    let y = xor_bytes(b, target);
    if nearer(a, b, target) {
        let i = choose|i: int| #[trigger] decides_nearer(a, b, target, i);
        assert forall|j: int| 0 <= j < i implies x[j] == y[j] by {
            assert(a[j] == b[j]);
        }
        crate::bytes::lemma_lex_at(x, y, i);
        assert(x.skip(i)[0] == x[i] && y.skip(i)[0] == y[i]);
    }
    if lex_less(x, y) {
        let i = lemma_lex_witness(x, y);
        assert forall|j: int| 0 <= j < i implies #[trigger] a[j] == b[j] by {
            assert(x[j] == y[j]);
            let p = a[j];
            let q = b[j];
            let t = target[j];
            assert(p ^ t == q ^ t ==> p == q) by (bit_vector);
        }
        assert(decides_nearer(a, b, target, i));
    }
}

/// Where two sequences of one length first differ.
pub proof fn lemma_lex_witness(x: Seq<u8>, y: Seq<u8>) -> (i: int)
    requires
        lex_less(x, y),
        x.len() == y.len(),
    ensures
        0 <= i < x.len(),
        forall|j: int| 0 <= j < i ==> x[j] == y[j],
        x[i] < y[i],
    decreases x.len(),
{
    if x[0] == y[0] {
        let k = lemma_lex_witness(x.skip(1), y.skip(1));
        assert forall|j: int| 0 <= j < k + 1 implies x[j] == y[j] by {
            if j > 0 {
                assert(x.skip(1)[j - 1] == x[j] && y.skip(1)[j - 1] == y[j]);
            }
        }
        k + 1
    } else {
        0
    }
}

/// A dictionary binds a key to a value: the first entry with that key has it.
pub open spec fn binds(e: Seq<(Seq<char>, Bencode)>, key: Seq<char>, v: Bencode) -> bool {
    exists|i: int|
        0 <= i < e.len() && (#[trigger] e[i]) == (key, v) && forall|j: int|
            0 <= j < i ==> (#[trigger] e[j]).0 != key
}

/// A dictionary does not bind a key.
pub open spec fn unbound(e: Seq<(Seq<char>, Bencode)>, key: Seq<char>) -> bool {
    forall|i: int| 0 <= i < e.len() ==> (#[trigger] e[i]).0 != key
}

pub proof fn lemma_binds(e: Seq<(Seq<char>, Bencode)>, key: Seq<char>, v: Bencode)
    ensures
        binds(e, key, v) ==> lookup(e, key) == Some(v),
        unbound(e, key) ==> lookup(e, key) is None,
    decreases e.len(),
{
    if e.len() > 0 {
        lemma_binds(e.skip(1), key, v);
        if binds(e, key, v) {
            let i = choose|i: int|
                0 <= i < e.len() && (#[trigger] e[i]) == (key, v) && forall|j: int|
                    0 <= j < i ==> (#[trigger] e[j]).0 != key;
            if i > 0 {
                assert(e[0].0 != key);
                assert(e.skip(1)[i - 1] == (key, v));
                assert forall|j: int| 0 <= j < i - 1 implies (#[trigger] e.skip(1)[j]).0 != key by {
                    assert(e.skip(1)[j] == e[j + 1]);
                }
                assert(binds(e.skip(1), key, v));
            }
        }
        if unbound(e, key) {
            assert(e[0].0 != key);
            assert forall|j: int| 0 <= j < e.skip(1).len() implies (#[trigger] e.skip(1)[j]).0
                != key by {
                assert(e.skip(1)[j] == e[j + 1]);
            }
        }
    }
}

/// A value is a text in UTF-8.
pub open spec fn is_text(v: Bencode, t: Seq<char>) -> bool {
    v == Bencode::Bytes(vstd::utf8::encode_utf8(t))
}

pub proof fn lemma_is_text(v: Bencode, t: Seq<char>)
    requires
        is_text(v, t),
    ensures
        crate::metainfo::text_of(v) == Some(t),
{
    vstd::utf8::encode_utf8_valid_utf8(t);
    vstd::utf8::encode_utf8_decode_utf8(t);
}

} // verus!

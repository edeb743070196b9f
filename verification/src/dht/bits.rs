//! Ids as sequences of bits, the highest bit of the first byte first.

use crate::bitfield::{bit_of, has_bit, set_bit, test_bit};
use crate::bytes::{lemma_lex_at, lex_less};
use crate::types::{array20, InfoHash};
use vstd::prelude::*;

verus! {

/// The bit at a position of an id.
pub open spec fn bit(id: Seq<u8>, i: int) -> bool {
    has_bit(id, i)
}

/// Two ids agree in their first `n` bits.
pub open spec fn agree(a: Seq<u8>, b: Seq<u8>, n: int) -> bool {
    forall|i: int| 0 <= i < n ==> #[trigger] bit(a, i) == bit(b, i)
}

/// The ids differ first at `i`, where `a` has a zero and `b` a one.
pub open spec fn parts_at(a: Seq<u8>, b: Seq<u8>, i: int) -> bool {
    agree(a, b, i) && !bit(a, i) && bit(b, i)
}

proof fn lemma_byte_bits(x: u8, y: u8)
    requires
        forall|k: int| 0 <= k < 8 ==> #[trigger] bit_of(x, k) == bit_of(y, k),
    ensures
        x == y,
{
    assert(bit_of(x, 0) == bit_of(y, 0));
    assert(bit_of(x, 1) == bit_of(y, 1));
    assert(bit_of(x, 2) == bit_of(y, 2));
    assert(bit_of(x, 3) == bit_of(y, 3));
    assert(bit_of(x, 4) == bit_of(y, 4));
    assert(bit_of(x, 5) == bit_of(y, 5));
    assert(bit_of(x, 6) == bit_of(y, 6));
    assert(bit_of(x, 7) == bit_of(y, 7));
    assert(((x >> 7u8) & 1u8 == 1u8) == ((y >> 7u8) & 1u8 == 1u8) && ((x >> 6u8) & 1u8 == 1u8) == ((y
        >> 6u8) & 1u8 == 1u8) && ((x >> 5u8) & 1u8 == 1u8) == ((y >> 5u8) & 1u8 == 1u8) && ((x
        >> 4u8) & 1u8 == 1u8) == ((y >> 4u8) & 1u8 == 1u8) && ((x >> 3u8) & 1u8 == 1u8) == ((y
        >> 3u8) & 1u8 == 1u8) && ((x >> 2u8) & 1u8 == 1u8) == ((y >> 2u8) & 1u8 == 1u8) && ((x
        >> 1u8) & 1u8 == 1u8) == ((y >> 1u8) & 1u8 == 1u8) && ((x >> 0u8) & 1u8 == 1u8) == ((y
        >> 0u8) & 1u8 == 1u8) ==> x == y) by (bit_vector);
}

/// Where a smaller byte first differs from a larger one, it has a zero.
proof fn lemma_byte_order(x: u8, y: u8, k: u8)
    requires
        k < 8,
        forall|j: int| 0 <= j < k ==> #[trigger] bit_of(x, j) == bit_of(y, j),
        bit_of(x, k as int) != bit_of(y, k as int),
    ensures
        x < y <==> bit_of(y, k as int),
{
    let s = (7 - k) as u8;
    assert forall|t: u8| s < t < 8 implies ((x >> t) & 1u8 == 1u8) == ((y >> t) & 1u8 == 1u8) by {
        assert(bit_of(x, 7 - t) == bit_of(y, 7 - t));
    }
    if k >= 1 {
        assert(bit_of(x, 0) == bit_of(y, 0));
    }
    if k >= 2 {
        assert(bit_of(x, 1) == bit_of(y, 1));
    }
    if k >= 3 {
        assert(bit_of(x, 2) == bit_of(y, 2));
    }
    if k >= 4 {
        assert(bit_of(x, 3) == bit_of(y, 3));
    }
    if k >= 5 {
        assert(bit_of(x, 4) == bit_of(y, 4));
    }
    if k >= 6 {
        assert(bit_of(x, 5) == bit_of(y, 5));
    }
    if k >= 7 {
        assert(bit_of(x, 6) == bit_of(y, 6));
    }
    assert(s < 8 && (s < 7 ==> ((x >> 7u8) & 1u8 == 1u8) == ((y >> 7u8) & 1u8 == 1u8)) && (s < 6
        ==> ((x >> 6u8) & 1u8 == 1u8) == ((y >> 6u8) & 1u8 == 1u8)) && (s < 5 ==> ((x >> 5u8) & 1u8
        == 1u8) == ((y >> 5u8) & 1u8 == 1u8)) && (s < 4 ==> ((x >> 4u8) & 1u8 == 1u8) == ((y >> 4u8)
        & 1u8 == 1u8)) && (s < 3 ==> ((x >> 3u8) & 1u8 == 1u8) == ((y >> 3u8) & 1u8 == 1u8)) && (s
        < 2 ==> ((x >> 2u8) & 1u8 == 1u8) == ((y >> 2u8) & 1u8 == 1u8)) && (s < 1 ==> ((x >> 1u8)
        & 1u8 == 1u8) == ((y >> 1u8) & 1u8 == 1u8)) && ((x >> s) & 1u8 == 1u8) != ((y >> s) & 1u8
        == 1u8) ==> ((x < y) == ((y >> s) & 1u8 == 1u8))) by (bit_vector);
}

/// The bits of a byte of an id.
proof fn lemma_bits_of_byte(a: Seq<u8>, j: int, k: int)
    requires
        0 <= j < a.len(),
        0 <= k < 8,
    ensures
        bit(a, 8 * j + k) == bit_of(a[j], k),
{
    assert((8 * j + k) / 8 == j);
    assert((8 * j + k) % 8 == k);
}

/// Ids that agree in all bits are the same.
pub proof fn lemma_all_bits(a: Seq<u8>, b: Seq<u8>)
    requires
        a.len() == b.len(),
        agree(a, b, 8int * a.len()),
    ensures
        a == b,
{
    assert forall|j: int| 0 <= j < a.len() implies a[j] == b[j] by {
        assert forall|k: int| 0 <= k < 8 implies #[trigger] bit_of(a[j], k) == bit_of(b[j], k) by {
            lemma_bits_of_byte(a, j, k);
            lemma_bits_of_byte(b, j, k);
            assert(bit(a, 8 * j + k) == bit(b, 8 * j + k));
        }
        lemma_byte_bits(a[j], b[j]);
    }
    assert(a =~= b);
}

/// The first bit in which two different ids differ.
pub proof fn lemma_first_difference(a: Seq<u8>, b: Seq<u8>, n: int) -> (i: int)
    requires
        !agree(a, b, n),
    ensures
        0 <= i < n,
        agree(a, b, i),
        bit(a, i) != bit(b, i),
    decreases n,
{
    if agree(a, b, n - 1) {
        if bit(a, n - 1) == bit(b, n - 1) {
            assert(agree(a, b, n));
        }
        n - 1
    } else {
        lemma_first_difference(a, b, n - 1)
    }
}

/// Where ids part decides their order.
pub proof fn lemma_parts_less(a: Seq<u8>, b: Seq<u8>, i: int)
    requires
        a.len() == b.len(),
        0 <= i < 8 * a.len(),
        parts_at(a, b, i),
    ensures
        lex_less(a, b),
        !lex_less(b, a),
{
    let j = i / 8;
    let k = i % 8;
    assert forall|m: int| 0 <= m < j implies a[m] == b[m] by {
        assert forall|q: int| 0 <= q < 8 implies #[trigger] bit_of(a[m], q) == bit_of(b[m], q) by {
            lemma_bits_of_byte(a, m, q);
            lemma_bits_of_byte(b, m, q);
            assert(bit(a, 8 * m + q) == bit(b, 8 * m + q));
        }
        lemma_byte_bits(a[m], b[m]);
    }
    assert forall|q: int| 0 <= q < k implies #[trigger] bit_of(a[j], q) == bit_of(b[j], q) by {
        lemma_bits_of_byte(a, j, q);
        lemma_bits_of_byte(b, j, q);
        assert(bit(a, 8 * j + q) == bit(b, 8 * j + q));
    }
    lemma_bits_of_byte(a, j, k);
    lemma_bits_of_byte(b, j, k);
    lemma_byte_order(a[j], b[j], k as u8);
    lemma_lex_at(a, b, j);
    lemma_lex_at(b, a, j);
    assert(a.skip(j)[0] == a[j]);
    assert(b.skip(j)[0] == b[j]);
}

/// An id comes before another exactly if it has the zero where they part.
pub proof fn lemma_less_parts(a: Seq<u8>, b: Seq<u8>) -> (i: int)
    requires
        a.len() == b.len(),
        lex_less(a, b),
    ensures
        0 <= i < 8 * a.len(),
        parts_at(a, b, i),
{
    if agree(a, b, 8int * a.len()) {
        lemma_all_bits(a, b);
        crate::bytes::lemma_lex_irreflexive(a);
    }
    let i = lemma_first_difference(a, b, 8int * a.len());
    if bit(a, i) {
        assert(parts_at(b, a, i));
        lemma_parts_less(b, a, i);
    }
    i
}

impl InfoHash {
    /// The bit at a position.
    pub fn get_bit(&self, i: u8) -> (r: bool)
        requires
            i < 160,
        ensures
            r == bit(self@, i as int),
    {
        test_bit(self.0.as_slice(), i as u32)
    }

    /// The id with the bit at a position set or unset.
    pub fn with_bit(&self, i: u8, value: bool) -> (r: InfoHash)
        requires
            i < 160,
        ensures
            forall|j: int|
                0 <= j < 160 ==> #[trigger] bit(r@, j) == if j == i {
                    value
                } else {
                    bit(self@, j)
                },
    {
        let mut v = vstd::slice::slice_to_vec(self.0.as_slice());
        let ghost before = self@;
        if value {
            set_bit(&mut v, i as u32);
        } else if self.get_bit(i) {
            let byte: usize = (i / 8) as usize;
            let k: u8 = i % 8;
            let b: u8 = v[byte];
            v.set(byte, b ^ (1u8 << (7 - k)));
            proof {
                assert forall|j: int| 0 <= j < 160 implies #[trigger] bit(v@, j) == if j == i {
                    false
                } else {
                    bit(before, j)
                } by {
                    if j / 8 == byte {
                        lemma_flip_bit(b, k, (j % 8) as u8);
                    }
                }
            }
        }
        InfoHash(array20(v.as_slice()))
    }
}

/// Flipping one bit of a byte flips that bit and no other.
proof fn lemma_flip_bit(b: u8, k: u8, j: u8)
    requires
        k < 8,
        j < 8,
    ensures
        bit_of(b ^ (1u8 << ((7 - k) as u8)), j as int) == if j == k {
            !bit_of(b, j as int)
        } else {
            bit_of(b, j as int)
        },
{
    let s = (7 - k) as u8;
    let t = (7 - j) as u8;
    assert((((b ^ (1u8 << s)) >> t) & 1u8 == 1u8) == (if t == s {
        !((b >> t) & 1u8 == 1u8)
    } else {
        (b >> t) & 1u8 == 1u8
    })) by (bit_vector)
        requires
            s < 8,
            t < 8,
    ;
}

} // verus!

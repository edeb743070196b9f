//! Bit fields: one bit for each piece, the first piece in the highest bit of
//! the first byte.

use vstd::prelude::*;

verus! {

/// The bit that `k` places below the highest bit of a byte.
pub open spec fn bit_of(b: u8, k: int) -> bool {
    (b >> ((7 - k) as u8)) & 1u8 == 1u8
}

/// Whether a bit field has the bit of piece `i`; bits past its end are unset.
pub open spec fn has_bit(bits: Seq<u8>, i: int) -> bool {
    0 <= i && i / 8 < bits.len() && bit_of(bits[i / 8], i % 8)
}

/// Setting one bit of a byte sets that bit and no other.
pub proof fn lemma_set_bit(b: u8, k: u8, j: u8)
    requires
        k < 8,
        j < 8,
    ensures
        bit_of(b | (1u8 << ((7 - k) as u8)), j as int) == (j == k || bit_of(b, j as int)),
{
    let s = (7 - k) as u8;
    let t = (7 - j) as u8;
    assert(((b | (1u8 << s)) >> t) & 1u8 == 1u8 <==> (t == s || (b >> t) & 1u8 == 1u8))
        by (bit_vector)
        requires
            s < 8,
            t < 8,
    ;
}

/// No bit of zero is set.
pub proof fn lemma_zero_bits(k: u8)
    requires
        k < 8,
    ensures
        !bit_of(0, k as int),
{
    let s = (7 - k) as u8;
    assert((0u8 >> s) & 1u8 == 0u8) by (bit_vector)
        requires
            s < 8,
    ;
}

/// Tests the bit of a piece.
pub fn test_bit(bits: &[u8], i: u32) -> (r: bool)
    ensures
        r == has_bit(bits@, i as int),
{
    let byte: usize = (i / 8) as usize;
    let shift: u8 = 7 - (i % 8) as u8;
    byte < bits.len() && (bits[byte] >> shift) & 1 == 1
}

/// The size of a bit field for `n` pieces.
pub open spec fn field_size(n: int) -> int {
    (n + 7) / 8
}

/// Sets the bit of a piece that lies within the field.
pub fn set_bit(bits: &mut Vec<u8>, i: u32)
    requires
        i / 8 < old(bits)@.len(),
    ensures
        final(bits)@.len() == old(bits)@.len(),
        forall|j: int|
            #![trigger has_bit(final(bits)@, j)]
            has_bit(final(bits)@, j) == (j == i || has_bit(old(bits)@, j)),
{
    let byte: usize = (i / 8) as usize;
    let k: u8 = (i % 8) as u8;
    let ghost before = bits@;
    let b: u8 = bits[byte];
    bits.set(byte, b | (1u8 << (7 - k)));
    proof {
        assert forall|j: int| #![trigger has_bit(bits@, j)]
            has_bit(bits@, j) == (j == i || has_bit(before, j)) by {
            if 0 <= j && j / 8 == byte {
                lemma_set_bit(b, k, (j % 8) as u8);
            }
            if j == i {
                lemma_set_bit(b, k, k);
            }
        }
    }
}

/// Sets the bit of a piece, extending the field with unset bits as needed.
pub fn grow_and_set(bits: &mut Vec<u8>, i: u32)
    ensures
        final(bits)@.len() == if i / 8 < old(bits)@.len() {
            old(bits)@.len() as int
        } else {
            i / 8 + 1
        },
        forall|j: int|
            #![trigger has_bit(final(bits)@, j)]
            has_bit(final(bits)@, j) == (j == i || has_bit(old(bits)@, j)),
{
    let byte: usize = (i / 8) as usize;
    let ghost before = bits@;
    while bits.len() <= byte
        invariant
            byte == i / 8,
            before.len() <= bits.len(),
            bits.len() <= byte + 1 || bits@ == before,
            forall|j: int| #![trigger has_bit(bits@, j)] has_bit(bits@, j) == has_bit(before, j),
        decreases byte + 1 - bits.len(),
    {
        let ghost now = bits@;
        bits.push(0);
        proof {
            assert forall|j: int| #![trigger has_bit(bits@, j)]
                has_bit(bits@, j) == has_bit(before, j) by {
                if 0 <= j && j / 8 == now.len() {
                    lemma_zero_bits((j % 8) as u8);
                }
                assert(has_bit(now, j) == has_bit(before, j));
            }
        }
    }
    set_bit(bits, i);
}

/// A field of unset bits.
pub fn empty_field(size: usize) -> (r: Vec<u8>)
    ensures
        r@.len() == size,
        forall|j: int| !#[trigger] has_bit(r@, j),
{
    let r: Vec<u8> = vec![0u8; size];
    proof {
        assert forall|j: int| !#[trigger] has_bit(r@, j) by {
            if 0 <= j && j / 8 < size {
                lemma_zero_bits((j % 8) as u8);
            }
        }
    }
    r
}

} // verus!

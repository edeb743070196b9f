//! The blocks of a piece.

use crate::laws::exchange::second;
use crate::piece::collector::{block_at, blocks_for, claimed_of, missing_of, reserved, PieceCollector};
use crate::piece::laws::law_claimed_blocks;
use crate::piece::manager::PieceManager;
use vstd::prelude::*;

verus! {

/// A block of a piece: blocks of sixteen kibibytes stand one behind the other,
/// and the last is as long as what is left.
pub open spec fn is_block(b: (u32, u32), size: int, k: int) -> bool {
    &&& 0 <= k
    &&& 16384 * k < size
    &&& b.0 == 16384 * k
    &&& b.1 == if size - 16384 * k < 16384 {
        size - 16384 * k
    } else {
        16384
    }
}

proof fn lemma_is_block(size: int, k: int)
    requires
        0 <= k < blocks_for(size),
        0 <= size <= 0x1_0000_0000,
    ensures
        is_block(block_at(size, 16384 * k), size, k),
{
}

/// A block was given to someone within the last half minute.
pub open spec fn held(issued: Map<u32, u64>, offset: u32, now: u64) -> bool {
    issued.contains_key(offset) && now < issued[offset] + 30 * second()
}

proof fn lemma_claims(
    list: Seq<(u32, u32)>,
    n: int,
    issued: Map<u32, u64>,
    count: int,
    now: u64,
)
    requires
        0 <= n <= list.len(),
    ensures
        ({
            let (claimed, after) = claimed_of(list, n, issued, count, now);
            &&& forall|o: u32| #[trigger]
                reserved(after, o, now as int) ==> reserved(issued, o, now as int) || (exists|i: int|
                    0 <= i < claimed.len() && (#[trigger] claimed[i]).0 == o)
            &&& claimed.len() < count ==> forall|j: int|
                0 <= j < n && !reserved(issued, (#[trigger] list[j]).0, now as int) ==> exists|
                    i: int,
                |
                    0 <= i < claimed.len() && (#[trigger] claimed[i]).0 == list[j].0
        }),
    decreases n,
{
    if n > 0 {
        lemma_claims(list, n - 1, issued, count, now);
        let (before, held) = claimed_of(list, n - 1, issued, count, now);
        let (claimed, after) = claimed_of(list, n, issued, count, now);
        let b = list[n - 1];
        if before.len() < count && !reserved(held, b.0, now as int) {
            assert(claimed == before.push(b));
            assert(claimed[before.len() as int].0 == b.0);
            assert forall|o: u32| #[trigger] reserved(after, o, now as int) implies reserved(
                issued,
                o,
                now as int,
            ) || (exists|i: int| 0 <= i < claimed.len() && (#[trigger] claimed[i]).0 == o) by {
                if o != b.0 {
                    assert(reserved(held, o, now as int));
                    if !reserved(issued, o, now as int) {
                        let i = choose|i: int|
                            0 <= i < before.len() && (#[trigger] before[i]).0 == o;
                        assert(claimed[i].0 == o);
                    }
                }
            }
            if claimed.len() < count {
                assert forall|j: int|
                    0 <= j < n && !reserved(
                        issued,
                        (#[trigger] list[j]).0,
                        now as int,
                    ) implies exists|i: int|
                    0 <= i < claimed.len() && (#[trigger] claimed[i]).0 == list[j].0 by {
                    if j < n - 1 {
                        let i = choose|i: int|
                            0 <= i < before.len() && (#[trigger] before[i]).0 == list[j].0;
                        assert(claimed[i].0 == list[j].0);
                    }
                }
            }
        } else {
            assert(claimed == before && after == held);
        }
    }
}

proof fn lemma_missing_has(blocks: Map<u32, Vec<u8>>, size: int, n: int, k: int)
    requires
        0 <= k < n,
        !blocks.contains_key((16384 * k) as u32),
    ensures
        missing_of(blocks, size, n).contains(block_at(size, 16384 * k)),
    decreases n,
{
    let all = missing_of(blocks, size, n);
    let before = missing_of(blocks, size, n - 1);
    if k == n - 1 {
        assert(all[before.len() as int] == block_at(size, 16384 * k));
    } else {
        lemma_missing_has(blocks, size, n - 1, k);
        let i = before.index_of(block_at(size, 16384 * k));
        assert(all[i] == before[i]);
    }
}

/// A peer that asks for blocks of a piece is given such as are not at hand and
/// were given to nobody within half a minute; no more than it asks for; and if
/// fewer, then all of them.
pub proof fn law_blocks_given(
    blocks: Map<u32, Vec<u8>>,
    size: int,
    list: Seq<(u32, u32)>,
    issued: Map<u32, u64>,
    count: int,
    now: u64,
)
    requires
        0 <= count,
        0 <= size <= 0xFFFF_C000,
        list.to_multiset() == missing_of(blocks, size, blocks_for(size)).to_multiset(),
    ensures
        ({
            let given = claimed_of(list, list.len() as int, issued, count, now).0;
            &&& given.len() <= count
            &&& forall|i: int|
                0 <= i < given.len() ==> (exists|k: int| #[trigger]
                    is_block(given[i], size, k)) && !blocks.contains_key((#[trigger] given[i]).0)
                    && !held(issued, given[i].0, now)
            &&& given.len() < count ==> forall|b: (u32, u32), k: int| #[trigger]
                is_block(b, size, k) && !blocks.contains_key(b.0) && !held(issued, b.0, now)
                    ==> given.contains(b)
        }),
{
    broadcast use vstd::seq_lib::group_to_multiset_ensures;

    let given = claimed_of(list, list.len() as int, issued, count, now).0;
    assert forall|i: int| 0 <= i < given.len() implies (exists|k: int| #[trigger]
        is_block(given[i], size, k)) && !blocks.contains_key((#[trigger] given[i]).0) && !held(
        issued,
        given[i].0,
        now,
    ) by {
        law_claimed_blocks(blocks, size, list, issued, count, now, i);
        let k = choose|k: int|
            0 <= k < blocks_for(size) && !blocks.contains_key((k * 16384) as u32) && given[i]
                == #[trigger] block_at(size, k * 16384);
        lemma_is_block(size, k);
        assert(is_block(given[i], size, k));
    }
    if given.len() > 0 {
        law_claimed_blocks(blocks, size, list, issued, count, now, 0);
    }
    lemma_claims(list, list.len() as int, issued, count, now);
    if given.len() < count {
        assert forall|b: (u32, u32), k: int| #[trigger]
            is_block(b, size, k) && !blocks.contains_key(b.0) && !held(
                issued,
                b.0,
                now,
            ) implies given.contains(b) by {
            let missing = missing_of(blocks, size, blocks_for(size));
            assert(k < blocks_for(size));
            lemma_is_block(size, k);
            assert(block_at(size, 16384 * k) == b);
            lemma_missing_has(blocks, size, blocks_for(size), k);
            assert(missing.to_multiset().count(b) > 0);
            assert(list.contains(b));
            let j = list.index_of(b);
            assert(!reserved(issued, list[j].0, now as int));
            let i = choose|i: int| 0 <= i < given.len() && (#[trigger] given[i]).0 == list[j].0;
            let m = choose|m: int| #[trigger] is_block(given[i], size, m);
            assert(given[i] == b);
        }
    }
}

/// A piece that is started has nothing yet, is held to its own hash, and has as
/// many blocks of sixteen kibibytes as hold it. All pieces are of one length,
/// but for the last, which ends where the torrent does.
pub proof fn law_piece_started(pm: PieceManager, index: u32, c: PieceCollector)
    requires
        pm.wf(),
        pm.sizes_defined(),
        index < pm.num_pieces,
        pm.piece_length <= 0x1_0000_0000,
        (pm.num_pieces - 1) * pm.piece_length < pm.total_size <= pm.num_pieces * pm.piece_length,
        pm.fresh_collector(index, c),
    ensures
        c.index == index,
        c.expected_hash == pm.hashes@[index as int],
        c.blocks@.dom() == Set::<u32>::empty(),
        c.issued@.dom() == Set::<u32>::empty(),
        16384 * (c.num_blocks - 1) < c.piece_size <= 16384 * c.num_blocks,
        index < pm.num_pieces - 1 ==> c.piece_size == pm.piece_length,
        index == pm.num_pieces - 1 ==> index * pm.piece_length + c.piece_size == pm.total_size,
{
    let (n, l, t) = (pm.num_pieces as int, pm.piece_length as int, pm.total_size as int);
    assert((n - 1) * l == n * l - l) by (nonlinear_arith);
    vstd::arithmetic::div_mod::lemma_fundamental_div_mod(t, l);
    assert(t % l == if t == n * l {
        0
    } else {
        t - (n - 1) * l
    }) by {
        if t == n * l {
            vstd::arithmetic::div_mod::lemma_fundamental_div_mod_converse(t, l, n, 0);
        } else {
            vstd::arithmetic::div_mod::lemma_fundamental_div_mod_converse(
                t,
                l,
                n - 1,
                t - (n - 1) * l,
            );
        }
    }
}

} // verus!

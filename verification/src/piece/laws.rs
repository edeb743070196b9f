//! What holds of the blocks of a piece.

use crate::piece::collector::{
    block_at, blocks_for, claimed_of, concatenated, cut, missing_of, reserved, sorted_offsets,
    PieceCollector, ISSUED_TIMEOUT_NANOS,
};
use crate::types::BLOCK_SIZE;
use vstd::prelude::*;

verus! {

/// What a claim leaves: the claimed blocks are of the list and reserved now,
/// and other reservations stay.
proof fn lemma_claimed(
    list: Seq<(u32, u32)>,
    n: int,
    issued: Map<u32, u64>,
    count: int,
    now: u64,
)
    requires
        0 <= n <= list.len(),
        0 <= count,
    ensures
        ({
            let (claimed, after) = claimed_of(list, n, issued, count, now);
            &&& claimed.len() <= count
            &&& claimed.len() <= n
            &&& forall|i: int|
                0 <= i < claimed.len() ==> after.contains_key((#[trigger] claimed[i]).0)
                    && after[claimed[i].0] == now && !reserved(issued, claimed[i].0, now as int)
                    && list.contains(claimed[i])
            &&& forall|o: u32| #[trigger]
                issued.contains_key(o) ==> after.contains_key(o) && (after[o] == issued[o]
                    || after[o] == now)
        }),
    decreases n,
{
    if n > 0 {
        lemma_claimed(list, n - 1, issued, count, now);
        let (before, mid) = claimed_of(list, n - 1, issued, count, now);
        let (claimed, after) = claimed_of(list, n, issued, count, now);
        let block = list[n - 1];
        assert(list.contains(block));
        if before.len() < count && !reserved(mid, block.0, now as int) {
            assert(!reserved(issued, block.0, now as int)) by {
                if issued.contains_key(block.0) {
                    assert(mid.contains_key(block.0));
                }
            }
            assert forall|i: int| 0 <= i < claimed.len() implies after.contains_key(
                (#[trigger] claimed[i]).0,
            ) && after[claimed[i].0] == now && !reserved(issued, claimed[i].0, now as int)
                && list.contains(claimed[i]) by {
                if i < before.len() {
                    assert(claimed[i] == before[i]);
                }
            }
        }
    }
}

/// Two peers that claim blocks within half a minute of each other are not
/// given the same block.
pub proof fn law_claims_apart(
    first: Seq<(u32, u32)>,
    second: Seq<(u32, u32)>,
    issued: Map<u32, u64>,
    count1: int,
    count2: int,
    now: u64,
    later: u64,
    i: int,
    j: int,
)
    requires
        0 <= count1,
        0 <= count2,
        later - now < ISSUED_TIMEOUT_NANOS,
        0 <= i < claimed_of(first, first.len() as int, issued, count1, now).0.len(),
        0 <= j < claimed_of(
            second,
            second.len() as int,
            claimed_of(first, first.len() as int, issued, count1, now).1,
            count2,
            later,
        ).0.len(),
    ensures
        claimed_of(first, first.len() as int, issued, count1, now).0[i].0 != claimed_of(
            second,
            second.len() as int,
            claimed_of(first, first.len() as int, issued, count1, now).1,
            count2,
            later,
        ).0[j].0,
{
    let (c1, mid) = claimed_of(first, first.len() as int, issued, count1, now);
    let (c2, after) = claimed_of(second, second.len() as int, mid, count2, later);
    lemma_claimed(first, first.len() as int, issued, count1, now);
    lemma_claimed(second, second.len() as int, mid, count2, later);
    assert(mid.contains_key(c1[i].0) && mid[c1[i].0] == now);
    assert(!reserved(mid, c2[j].0, later as int));
}

/// The missing blocks are blocks of the piece that are not at hand.
proof fn lemma_missing(blocks: Map<u32, Vec<u8>>, size: int, n: int)
    requires
        0 <= n,
        n * BLOCK_SIZE <= u32::MAX,
    ensures
        forall|i: int|
            0 <= i < missing_of(blocks, size, n).len() ==> exists|k: int|
                0 <= k < n && !blocks.contains_key((k * BLOCK_SIZE) as u32) && (
                #[trigger] missing_of(blocks, size, n)[i]) == #[trigger] block_at(
                    size,
                    k * BLOCK_SIZE,
                ),
    decreases n,
{
    if n > 0 {
        lemma_missing(blocks, size, n - 1);
        let before = missing_of(blocks, size, n - 1);
        let all = missing_of(blocks, size, n);
        assert forall|i: int| 0 <= i < all.len() implies exists|k: int|
            0 <= k < n && !blocks.contains_key((k * BLOCK_SIZE) as u32) && (#[trigger] all[i])
                == #[trigger] block_at(size, k * BLOCK_SIZE) by {
            if i < before.len() {
                assert(all[i] == before[i]);
                let k = choose|k: int|
                    0 <= k < n - 1 && !blocks.contains_key((k * BLOCK_SIZE) as u32) && before[i]
                        == #[trigger] block_at(size, k * BLOCK_SIZE);
                assert(all[i] == block_at(size, k * BLOCK_SIZE));
            } else {
                assert(all[i] == block_at(size, (n - 1) * BLOCK_SIZE));
            }
        }
    }
}

/// A peer is given no more blocks than it asks for, each of them a block of
/// the piece that is not at hand and that nobody else was given of late.
pub proof fn law_claimed_blocks(
    blocks: Map<u32, Vec<u8>>,
    size: int,
    list: Seq<(u32, u32)>,
    issued: Map<u32, u64>,
    count: int,
    now: u64,
    i: int,
)
    requires
        0 <= count,
        0 <= size <= 0xFFFF_C000,
        list.to_multiset() == missing_of(blocks, size, blocks_for(size)).to_multiset(),
        0 <= i < claimed_of(list, list.len() as int, issued, count, now).0.len(),
    ensures
        claimed_of(list, list.len() as int, issued, count, now).0.len() <= count,
        !reserved(
            issued,
            claimed_of(list, list.len() as int, issued, count, now).0[i].0,
            now as int,
        ),
        exists|k: int|
            0 <= k < blocks_for(size) && !blocks.contains_key((k * BLOCK_SIZE) as u32)
                && claimed_of(list, list.len() as int, issued, count, now).0[i]
                == #[trigger] block_at(size, k * BLOCK_SIZE),
{
    broadcast use vstd::seq_lib::group_to_multiset_ensures;

    let claimed = claimed_of(list, list.len() as int, issued, count, now).0;
    lemma_claimed(list, list.len() as int, issued, count, now);
    let missing = missing_of(blocks, size, blocks_for(size));
    assert(list.contains(claimed[i]));
    assert(list.to_multiset().count(claimed[i]) > 0);
    assert(missing.contains(claimed[i]));
    let m = missing.index_of(claimed[i]);
    lemma_missing(blocks, size, blocks_for(size));
    assert(missing[m] == claimed[i]);
}

/// The blocks at hand are those of the data, all of them.
pub open spec fn holds_all(blocks: Map<u32, Vec<u8>>, data: Seq<u8>) -> bool {
    &&& forall|o: u32| #[trigger]
        blocks.contains_key(o) <==> (o % BLOCK_SIZE == 0 && o < data.len())
    &&& forall|o: u32| #[trigger]
        blocks.contains_key(o) ==> blocks[o]@ == data.subrange(
            o as int,
            o + block_at(data.len() as int, o as int).1,
        )
}

proof fn lemma_offsets_regular(
    blocks: Map<u32, Vec<u8>>,
    offsets: Seq<u32>,
    data: Seq<u8>,
    i: int,
)
    requires
        data.len() <= 0x1_0000_0000,
        holds_all(blocks, data),
        sorted_offsets(blocks, offsets),
        0 <= i < blocks_for(data.len() as int),
    ensures
        i < offsets.len(),
        offsets[i] == i * BLOCK_SIZE,
    decreases i,
{
    let o = (i * BLOCK_SIZE) as u32;
    assert(o % BLOCK_SIZE == 0 && o < data.len());
    assert(blocks.contains_key(o));
    assert(offsets.to_set().contains(o));
    let p = choose|p: int| 0 <= p < offsets.len() && offsets[p] == o;
    assert(0 <= p < offsets.len() && offsets[p] == o);
    if p < i {
        lemma_offsets_regular(blocks, offsets, data, p);
    } else if p > i {
        assert(offsets[i] < offsets[p]);
        assert(offsets.to_set().contains(offsets[i]));
        assert(blocks.contains_key(offsets[i]));
        if i > 0 {
            lemma_offsets_regular(blocks, offsets, data, i - 1);
            assert(offsets[i - 1] < offsets[i]);
        }
        assert(offsets[i] % BLOCK_SIZE == 0);
    }
}

/// A piece all of whose blocks have arrived, in whatever order, is put
/// together as it was.
pub proof fn law_piece_assembled(blocks: Map<u32, Vec<u8>>, offsets: Seq<u32>, data: Seq<u8>)
    requires
        data.len() <= 0x1_0000_0000,
        holds_all(blocks, data),
        sorted_offsets(blocks, offsets),
    ensures
        cut(concatenated(blocks, offsets), data.len() as int) == data,
{
    let n = blocks_for(data.len() as int);
    assert forall|i: int| 0 <= i < n implies i < offsets.len() && #[trigger] offsets[i] == i
        * BLOCK_SIZE by {
        lemma_offsets_regular(blocks, offsets, data, i);
    }
    if offsets.len() > n {
        let o = offsets[n];
        assert(offsets.to_set().contains(o));
        assert(blocks.contains_key(o));
        if n > 0 {
            lemma_offsets_regular(blocks, offsets, data, n - 1);
            assert(offsets[n - 1] < offsets[n]);
        }
        assert(false);
    }
    if n > 0 {
        lemma_offsets_regular(blocks, offsets, data, n - 1);
    }
    lemma_concatenated(blocks, offsets, data, n);
    assert(offsets.take(n) =~= offsets);
    assert(data.take(data.len() as int) =~= data);
}

/// A piece has no more blocks than there are places for them.
proof fn lemma_places(s: Set<u32>, n: int)
    requires
        0 <= n,
        s.finite(),
        forall|o: u32| #[trigger] s.contains(o) ==> o % BLOCK_SIZE == 0 && o < n * BLOCK_SIZE,
    ensures
        s.len() <= n,
    decreases n,
{
    if n == 0 {
        assert forall|o: u32| !#[trigger] s.contains(o) by {}
        assert(s =~= Set::empty());
    } else {
        let last = (n - 1) * BLOCK_SIZE;
        let rest = if last <= u32::MAX {
            s.remove(last as u32)
        } else {
            s
        };
        assert forall|o: u32| #[trigger] rest.contains(o) implies o % BLOCK_SIZE == 0 && o < (n - 1)
            * BLOCK_SIZE by {
            assert(s.contains(o));
            assert(o != last);
        }
        lemma_places(rest, n - 1);
    }
}

/// A piece of which a block is missing is not put together.
pub proof fn law_piece_waits(c: PieceCollector, missing: u32)
    requires
        c.blocks@.dom().finite(),
        forall|o: u32| #[trigger]
            c.blocks@.contains_key(o) ==> o % BLOCK_SIZE == 0 && o < c.piece_size,
        c.num_blocks == blocks_for(c.piece_size as int),
        missing % BLOCK_SIZE == 0,
        missing < c.piece_size,
        !c.blocks@.contains_key(missing),
    ensures
        !c.complete(),
{
    let all = c.blocks@.dom().insert(missing);
    let n = blocks_for(c.piece_size as int);
    assert forall|o: u32| #[trigger] all.contains(o) implies o % BLOCK_SIZE == 0 && o < n
        * BLOCK_SIZE by {
        if o != missing {
            assert(c.blocks@.contains_key(o));
        }
    }
    lemma_places(all, n);
}

/// A piece with a block at each of `n` places has at least that many.
proof fn lemma_places_filled(s: Set<u32>, n: int)
    requires
        0 <= n <= 0x4_0000,
        s.finite(),
        forall|k: int| 0 <= k < n ==> s.contains(#[trigger] place(k)),
    ensures
        s.len() >= n,
    decreases n,
{
    if n > 0 {
        let last = place(n - 1);
        assert(s.contains(last));
        assert forall|k: int| 0 <= k < n - 1 implies s.remove(last).contains(#[trigger] place(k)) by {
            assert(s.contains(place(k)));
        }
        lemma_places_filled(s.remove(last), n - 1);
    }
}

/// Where the block at `k` starts.
pub open spec fn place(k: int) -> u32 {
    (k * BLOCK_SIZE) as u32
}

/// The blocks at hand after blocks have arrived one after the other. A second
/// block at an offset is dropped.
pub open spec fn after_arrivals(arrivals: Seq<(u32, Vec<u8>)>) -> Map<u32, Vec<u8>>
    decreases arrivals.len(),
{
    if arrivals.len() == 0 {
        Map::empty()
    } else {
        let before = after_arrivals(arrivals.drop_last());
        let (offset, block) = arrivals.last();
        if before.contains_key(offset) {
            before
        } else {
            before.insert(offset, block)
        }
    }
}

/// Every arrival is a block of the data.
pub open spec fn blocks_of(arrivals: Seq<(u32, Vec<u8>)>, data: Seq<u8>) -> bool {
    forall|i: int|
        0 <= i < arrivals.len() ==> {
            let o = (#[trigger] arrivals[i]).0;
            &&& o % BLOCK_SIZE == 0
            &&& o < data.len()
            &&& arrivals[i].1@ == data.subrange(
                o as int,
                o + block_at(data.len() as int, o as int).1,
            )
        }
}

/// A block at an offset has arrived.
pub open spec fn arrived(arrivals: Seq<(u32, Vec<u8>)>, o: u32) -> bool {
    exists|i: int| 0 <= i < arrivals.len() && (#[trigger] arrivals[i]).0 == o
}

proof fn lemma_arrivals(arrivals: Seq<(u32, Vec<u8>)>, data: Seq<u8>)
    requires
        blocks_of(arrivals, data),
    ensures
        after_arrivals(arrivals).dom().finite(),
        forall|o: u32| #[trigger]
            after_arrivals(arrivals).contains_key(o) <==> arrived(arrivals, o),
        forall|o: u32| #[trigger]
            after_arrivals(arrivals).contains_key(o) ==> after_arrivals(arrivals)[o]@
                == data.subrange(o as int, o + block_at(data.len() as int, o as int).1),
    decreases arrivals.len(),
{
    if arrivals.len() > 0 {
        let init = arrivals.drop_last();
        let last = arrivals.last();
        assert forall|i: int| 0 <= i < init.len() implies init[i] == arrivals[i] by {}
        assert(blocks_of(init, data)) by {
            assert forall|i: int| 0 <= i < init.len() implies {
                let o = (#[trigger] init[i]).0;
                &&& o % BLOCK_SIZE == 0
                &&& o < data.len()
                &&& init[i].1@ == data.subrange(
                    o as int,
                    o + block_at(data.len() as int, o as int).1,
                )
            } by {
                assert(init[i] == arrivals[i]);
            }
        }
        lemma_arrivals(init, data);
        assert(arrivals[arrivals.len() - 1] == last);
        assert forall|o: u32| #[trigger] arrived(arrivals, o) <==> arrived(init, o) || o == last.0 by {
            if arrived(init, o) {
                let i = choose|i: int| 0 <= i < init.len() && (#[trigger] init[i]).0 == o;
                assert(arrivals[i].0 == o);
            }
            if arrived(arrivals, o) {
                let i = choose|i: int| 0 <= i < arrivals.len() && (#[trigger] arrivals[i]).0 == o;
                if i < init.len() {
                    assert(init[i].0 == o);
                }
            }
        }
    }
}

/// Blocks of a piece that arrive in any order, some perhaps more than once, make
/// up the piece as soon as all have arrived, and nothing before that.
pub proof fn law_piece_from_blocks(
    c: PieceCollector,
    arrivals: Seq<(u32, Vec<u8>)>,
    data: Seq<u8>,
)
    requires
        0 < data.len() <= 0x1_0000_0000,
        blocks_of(arrivals, data),
        c.blocks@ == after_arrivals(arrivals),
        c.piece_size == data.len(),
        c.num_blocks == blocks_for(data.len() as int),
    ensures
        c.complete() <==> forall|o: u32|
            o % BLOCK_SIZE == 0 && o < data.len() ==> #[trigger] arrived(arrivals, o),
        c.complete() ==> forall|offsets: Seq<u32>|
            sorted_offsets(c.blocks@, offsets) ==> cut(
                #[trigger] concatenated(c.blocks@, offsets),
                c.piece_size as int,
            ) == data,
{
    let n = blocks_for(data.len() as int);
    lemma_arrivals(arrivals, data);
    assert forall|o: u32| #[trigger] c.blocks@.contains_key(o) implies o % BLOCK_SIZE == 0 && o
        < c.piece_size by {
        let i = choose|i: int| 0 <= i < arrivals.len() && (#[trigger] arrivals[i]).0 == o;
        assert(arrivals[i].0 == o);
    }
    if forall|o: u32|
        o % BLOCK_SIZE == 0 && o < data.len() ==> #[trigger] arrived(arrivals, o) {
        assert forall|k: int| 0 <= k < n implies c.blocks@.dom().contains(#[trigger] place(k)) by {
            assert(arrived(arrivals, place(k)));
        }
        lemma_places_filled(c.blocks@.dom(), n);
        assert(holds_all(c.blocks@, data)) by {
            assert forall|o: u32| #[trigger] c.blocks@.contains_key(o) <==> (o % BLOCK_SIZE == 0 && o
                < data.len()) by {
                if o % BLOCK_SIZE == 0 && o < data.len() {
                    assert(arrived(arrivals, o));
                }
            }
        }
        assert forall|offsets: Seq<u32>| sorted_offsets(c.blocks@, offsets) implies cut(
            #[trigger] concatenated(c.blocks@, offsets),
            c.piece_size as int,
        ) == data by {
            law_piece_assembled(c.blocks@, offsets, data);
        }
    } else {
        let o = choose|o: u32|
            o % BLOCK_SIZE == 0 && o < data.len() && !#[trigger] arrived(arrivals, o);
        law_piece_waits(c, o);
    }
}

proof fn lemma_concatenated(
    blocks: Map<u32, Vec<u8>>,
    offsets: Seq<u32>,
    data: Seq<u8>,
    k: int,
)
    requires
        data.len() <= 0x1_0000_0000,
        holds_all(blocks, data),
        0 <= k <= blocks_for(data.len() as int),
        offsets.len() == blocks_for(data.len() as int),
        forall|i: int| 0 <= i < offsets.len() ==> #[trigger] offsets[i] == i * BLOCK_SIZE,
    ensures
        concatenated(blocks, offsets.take(k)) == data.take(
            if k * BLOCK_SIZE < data.len() {
                k * BLOCK_SIZE
            } else {
                data.len() as int
            },
        ),
    decreases k,
{
    if k == 0 {
        assert(offsets.take(0) =~= seq![]);
        assert(data.take(0) =~= seq![]);
    } else {
        lemma_concatenated(blocks, offsets, data, k - 1);
        let t = offsets.take(k);
        assert(t.drop_last() =~= offsets.take(k - 1));
        assert(t.last() == offsets[k - 1]);
        let o = offsets[k - 1];
        assert(o == (k - 1) * BLOCK_SIZE);
        assert(blocks.contains_key(o));
        let end = o + block_at(data.len() as int, o as int).1;
        assert(data.take(o as int) + data.subrange(o as int, end) =~= data.take(end));
    }
}

} // verus!

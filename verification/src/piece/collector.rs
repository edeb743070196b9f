//! Collecting the blocks of one piece.

use crate::outside::random_u64;
use crate::sort::{is_stable_order, stable_order};
use crate::types::BLOCK_SIZE;
use std::collections::HashMap;
use vstd::prelude::*;
use vstd::std_specs::iter::IteratorSpec;

verus! {

/// How long a requested block stays reserved for the peer it was requested
/// from, in nanoseconds.
pub const ISSUED_TIMEOUT_NANOS: u64 = 30_000_000_000;

/// The blocks of a piece that is being downloaded.
#[derive(Debug)]
pub struct PieceCollector {
    pub index: u32,
    pub piece_size: u64,
    pub expected_hash: [u8; 20],
    /// The blocks at hand, by their offset.
    pub blocks: HashMap<u32, Vec<u8>>,
    /// When each reserved offset was requested, in nanoseconds.
    pub issued: HashMap<u32, u64>,
    pub num_blocks: u32,
}

/// How many blocks cover `size` bytes.
pub open spec fn blocks_for(size: int) -> int {
    (size + BLOCK_SIZE - 1) / (BLOCK_SIZE as int)
}

/// A reservation made at `t` still holds at `now`.
pub open spec fn reserved(issued: Map<u32, u64>, offset: u32, now: int) -> bool {
    issued.contains_key(offset) && now - issued[offset] < ISSUED_TIMEOUT_NANOS
}

/// The block at an offset: the offset and how many bytes it spans.
pub open spec fn block_at(size: int, offset: int) -> (u32, u32) {
    (
        offset as u32,
        if size - offset < BLOCK_SIZE {
            (size - offset) as u32
        } else {
            BLOCK_SIZE
        },
    )
}

/// The blocks among the first `n` that are not at hand, in order.
pub open spec fn missing_of(blocks: Map<u32, Vec<u8>>, size: int, n: int) -> Seq<(u32, u32)>
    decreases n,
{
    if n <= 0 {
        seq![]
    } else if blocks.contains_key(((n - 1) * BLOCK_SIZE) as u32) {
        missing_of(blocks, size, n - 1)
    } else {
        missing_of(blocks, size, n - 1).push(block_at(size, (n - 1) * BLOCK_SIZE))
    }
}

/// What is claimed of a list of blocks, at most `count`: those that nobody
/// else holds a reservation for, each reserved as it is claimed.
pub open spec fn claimed_of(
    list: Seq<(u32, u32)>,
    n: int,
    issued: Map<u32, u64>,
    count: int,
    now: u64,
) -> (Seq<(u32, u32)>, Map<u32, u64>)
    decreases n,
{
    if n <= 0 {
        (seq![], issued)
    } else {
        let (claimed, after) = claimed_of(list, n - 1, issued, count, now);
        let block = list[n - 1];
        if claimed.len() < count && !reserved(after, block.0, now as int) {
            (claimed.push(block), after.insert(block.0, now))
        } else {
            (claimed, after)
        }
    }
}

/// The data of blocks at the given offsets, one after the other.
pub open spec fn concatenated(blocks: Map<u32, Vec<u8>>, offsets: Seq<u32>) -> Seq<u8>
    decreases offsets.len(),
{
    if offsets.len() == 0 {
        seq![]
    } else {
        concatenated(blocks, offsets.drop_last()) + blocks[offsets.last()]@
    }
}

/// Numbers in strictly ascending order.
pub open spec fn ascending(s: Seq<u32>) -> bool {
    forall|i: int, j: int| 0 <= i < j < s.len() ==> s[i] < s[j]
}

/// All offsets at hand, ascending.
pub open spec fn sorted_offsets(blocks: Map<u32, Vec<u8>>, offsets: Seq<u32>) -> bool {
    ascending(offsets) && offsets.to_set() == blocks.dom()
}

/// At most the first `n` bytes.
pub open spec fn cut(s: Seq<u8>, n: int) -> Seq<u8> {
    if s.len() > n {
        s.take(n)
    } else {
        s
    }
}

impl PieceCollector {
    /// Enough blocks are at hand.
    pub open spec fn complete(&self) -> bool {
        self.blocks@.len() >= self.num_blocks
    }

    /// A collector without blocks.
    pub fn new(index: u32, piece_size: u64, expected_hash: [u8; 20]) -> (r: PieceCollector)
        ensures
            r.index == index,
            r.piece_size == piece_size,
            r.expected_hash == expected_hash,
            r.blocks@ == Map::<u32, Vec<u8>>::empty(),
            r.issued@ == Map::<u32, u64>::empty(),
            r.num_blocks == blocks_for(piece_size as int) as u32,
    {
        let whole: u64 = piece_size / BLOCK_SIZE as u64;
        let count: u64 = if piece_size % (BLOCK_SIZE as u64) == 0 {
            whole
        } else {
            whole + 1
        };
        PieceCollector {
            index,
            piece_size,
            expected_hash,
            blocks: HashMap::new(),
            issued: HashMap::new(),
            num_blocks: count as u32,
        }
    }

    /// Takes a block in and says whether the piece is complete. A second block
    /// at an offset is dropped; a new one ends the offset's reservation.
    pub fn add_block(&mut self, offset: u32, data: Vec<u8>) -> (r: bool)
        ensures
            r == final(self).complete(),
            final(self).index == old(self).index,
            final(self).piece_size == old(self).piece_size,
            final(self).expected_hash == old(self).expected_hash,
            final(self).num_blocks == old(self).num_blocks,
            old(self).blocks@.contains_key(offset) ==> *final(self) == *old(self),
            !old(self).blocks@.contains_key(offset) ==> final(self).blocks@
                == old(self).blocks@.insert(offset, data) && final(self).issued@
                == old(self).issued@.remove(offset),
    {
        if self.blocks.contains_key(&offset) {
            return self.is_complete();
        }
        self.issued.remove(&offset);
        self.blocks.insert(offset, data);
        self.is_complete()
    }

    /// Whether enough blocks are at hand.
    pub fn is_complete(&self) -> (r: bool)
        ensures
            r == self.complete(),
    {
        self.blocks.len() >= self.num_blocks as usize
    }

    /// The piece's data: its blocks in the order of their offsets, cut to the
    /// piece's size. Nothing while blocks are missing.
    pub fn assemble(&self) -> (r: Option<Vec<u8>>)
        requires
            self.piece_size <= usize::MAX,
        ensures
            match r {
                None => !self.complete(),
                Some(v) => self.complete() && exists|offsets: Seq<u32>|
                    sorted_offsets(self.blocks@, offsets) && v@ == cut(
                        #[trigger] concatenated(self.blocks@, offsets),
                        self.piece_size as int,
                    ),
            },
    {
        if !self.is_complete() {
            return None;
        }
        let offsets = self.offsets();
        let mut result: Vec<u8> = Vec::new();
        let mut i: usize = 0;
        assert(offsets@.take(0) =~= seq![]);
        while i < offsets.len()
            invariant
                i <= offsets.len(),
                sorted_offsets(self.blocks@, offsets@),
                result@ == concatenated(self.blocks@, offsets@.take(i as int)),
            decreases offsets.len() - i,
        {
            proof {
                let t = offsets@.take(i + 1);
                assert(t.drop_last() =~= offsets@.take(i as int));
                assert(offsets@.to_set().contains(offsets@[i as int]));
            }
            if let Some(block) = self.blocks.get(&offsets[i]) {
                result.extend_from_slice(block.as_slice());
            }
            i += 1;
        }
        assert(offsets@.take(i as int) =~= offsets@);
        let ghost all = result@;
        result.truncate(self.piece_size as usize);
        assert(result@ =~= cut(all, self.piece_size as int));
        Some(result)
    }

    /// The offsets at hand, ascending.
    fn offsets(&self) -> (r: Vec<u32>)
        ensures
            sorted_offsets(self.blocks@, r@),
    {
        let mut keys: Vec<u32> = Vec::new();
        let walk = self.blocks.keys();
        let ghost walked = walk.remaining();
        for k in it: walk
            invariant
                it.seq() == walked,
                keys@.len() == it.index(),
                forall|i: int| 0 <= i < keys@.len() ==> #[trigger] keys@[i] == *walked[i],
        {
            keys.push(*k);
        }
        assert(keys@ =~= walked.unref());
        assert(keys@.no_duplicates());
        let order = stable_order(&keys);
        let mut out: Vec<u32> = Vec::new();
        let mut i: usize = 0;
        while i < order.len()
            invariant
                i <= order.len(),
                out@.len() == i,
                is_stable_order(keys@, order@),
                forall|j: int| 0 <= j < i ==> #[trigger] out@[j] == keys@[order@[j] as int],
            decreases order.len() - i,
        {
            out.push(keys[order[i]]);
            i += 1;
        }
        proof {
            assert(ascending(out@)) by {
                assert forall|i: int, j: int| 0 <= i < j < out@.len() implies out@[i] < out@[j] by {
                    assert(crate::sort::in_stable_order(keys@, order@[i], order@[j]));
                }
            }
            assert(out@.to_set() =~= keys@.to_set()) by {
                assert forall|x: u32| keys@.to_set().contains(x) implies out@.to_set().contains(x) by {
                    let k = choose|k: int| 0 <= k < keys@.len() && keys@[k] == x;
                    crate::sort::lemma_order_complete(keys@, order@, k as usize);
                    let j = choose|j: int| 0 <= j < order@.len() && order@[j] == k;
                    assert(out@[j] == x);
                }
                assert forall|x: u32| out@.to_set().contains(x) implies keys@.to_set().contains(x) by {
                    let j = choose|j: int| 0 <= j < out@.len() && out@[j] == x;
                    assert(keys@[order@[j] as int] == x);
                }
            }
        }
        out
    }

    /// The blocks that are not at hand, in order.
    pub fn missing_blocks(&self) -> (r: Vec<(u32, u32)>)
        requires
            self.piece_size <= 0xFFFF_C000,
        ensures
            r@ == missing_of(
                self.blocks@,
                self.piece_size as int,
                blocks_for(self.piece_size as int),
            ),
    {
        let mut missing: Vec<(u32, u32)> = Vec::new();
        let mut offset: u32 = 0;
        let ghost mut n: int = 0;
        while (offset as u64) < self.piece_size
            invariant
                self.piece_size <= 0xFFFF_C000,
                offset == n * BLOCK_SIZE,
                0 <= n <= blocks_for(self.piece_size as int),
                missing@ == missing_of(self.blocks@, self.piece_size as int, n),
            decreases self.piece_size + BLOCK_SIZE - offset,
        {
            if !self.blocks.contains_key(&offset) {
                let left: u64 = self.piece_size - offset as u64;
                let length: u32 = if left < BLOCK_SIZE as u64 {
                    left as u32
                } else {
                    BLOCK_SIZE
                };
                missing.push((offset, length));
            }
            offset += BLOCK_SIZE;
            proof {
                n = n + 1;
            }
        }
        missing
    }

    /// Claims blocks of a list for a peer, at most `count`, and reserves them.
    pub fn claim_in_order(&mut self, list: &Vec<(u32, u32)>, count: usize, now: u64) -> (r: Vec<
        (u32, u32),
    >)
        ensures
            (r@, final(self).issued@) == claimed_of(
                list@,
                list@.len() as int,
                old(self).issued@,
                count as int,
                now,
            ),
            final(self).blocks == old(self).blocks,
            final(self).index == old(self).index,
            final(self).piece_size == old(self).piece_size,
            final(self).expected_hash == old(self).expected_hash,
            final(self).num_blocks == old(self).num_blocks,
    {
        let mut claimed: Vec<(u32, u32)> = Vec::new();
        let mut i: usize = 0;
        while i < list.len()
            invariant
                i <= list.len(),
                (claimed@, self.issued@) == claimed_of(
                    list@,
                    i as int,
                    old(self).issued@,
                    count as int,
                    now,
                ),
                self.blocks == old(self).blocks,
                self.index == old(self).index,
                self.piece_size == old(self).piece_size,
                self.expected_hash == old(self).expected_hash,
                self.num_blocks == old(self).num_blocks,
            decreases list.len() - i,
        {
            let (offset, length) = list[i];
            if claimed.len() < count {
                let fresh: bool = match self.issued.get(&offset) {
                    Some(t) => now.saturating_sub(*t) < ISSUED_TIMEOUT_NANOS,
                    None => false,
                };
                if !fresh {
                    self.issued.insert(offset, now);
                    claimed.push((offset, length));
                }
            }
            i += 1;
        }
        claimed
    }

    /// Claims up to `count` missing blocks that nobody holds a reservation
    /// for, in a random order, and reserves them.
    pub fn claim_blocks(&mut self, count: usize, now: u64) -> (r: Vec<(u32, u32)>)
        requires
            old(self).piece_size <= 0xFFFF_C000,
        ensures
            exists|list: Seq<(u32, u32)>|
                list.to_multiset() == missing_of(
                    old(self).blocks@,
                    old(self).piece_size as int,
                    blocks_for(old(self).piece_size as int),
                ).to_multiset() && (r@, final(self).issued@) == #[trigger] claimed_of(
                    list,
                    list.len() as int,
                    old(self).issued@,
                    count as int,
                    now,
                ),
            final(self).blocks == old(self).blocks,
            final(self).index == old(self).index,
            final(self).piece_size == old(self).piece_size,
            final(self).expected_hash == old(self).expected_hash,
            final(self).num_blocks == old(self).num_blocks,
    {
        let mut missing = self.missing_blocks();
        let ghost ordered = missing@;
        if missing.len() > 1 {
            let mut i: usize = missing.len() - 1;
            while i > 0
                invariant
                    i < missing.len(),
                    missing@.to_multiset() == ordered.to_multiset(),
                decreases i,
            {
                let j: usize = (random_u64() % (i as u64 + 1)) as usize;
                swap_blocks(&mut missing, i, j);
                i -= 1;
            }
        }
        self.claim_in_order(&missing, count, now)
    }

    /// Ends the reservations of the given offsets.
    pub fn release(&mut self, offsets: &Vec<u32>)
        ensures
            final(self).issued@ == old(self).issued@.remove_keys(offsets@.to_set()),
            final(self).blocks == old(self).blocks,
            final(self).index == old(self).index,
            final(self).piece_size == old(self).piece_size,
            final(self).expected_hash == old(self).expected_hash,
            final(self).num_blocks == old(self).num_blocks,
    {
        let mut i: usize = 0;
        while i < offsets.len()
            invariant
                i <= offsets.len(),
                forall|x: u32|
                    #![trigger self.issued@.contains_key(x)]
                    self.issued@.contains_key(x) <==> old(self).issued@.contains_key(x)
                        && !offsets@.take(i as int).contains(x),
                forall|x: u32|
                    self.issued@.contains_key(x) ==> #[trigger] self.issued@[x]
                        == old(self).issued@[x],
                self.blocks == old(self).blocks,
                self.index == old(self).index,
                self.piece_size == old(self).piece_size,
                self.expected_hash == old(self).expected_hash,
                self.num_blocks == old(self).num_blocks,
            decreases offsets.len() - i,
        {
            let ghost before = self.issued@;
            self.issued.remove(&offsets[i]);
            proof {
                let t = offsets@.take(i as int);
                let u = offsets@.take(i + 1);
                assert(u =~= t.push(offsets@[i as int]));
                assert forall|x: u32|
                    #![trigger self.issued@.contains_key(x)]
                    self.issued@.contains_key(x) <==> old(self).issued@.contains_key(x)
                        && !u.contains(x) by {
                    if u.contains(x) && x != offsets@[i as int] {
                        let k = u.index_of(x);
                        assert(t[k] == x);
                    }
                    if t.contains(x) {
                        assert(u[t.index_of(x)] == x);
                    }
                    assert(u[i as int] == offsets@[i as int]);
                }
            }
            i += 1;
        }
        assert(offsets@.take(i as int) =~= offsets@);
        assert(self.issued@ =~= old(self).issued@.remove_keys(offsets@.to_set()));
    }
}

/// Exchanges two elements.
fn swap_blocks(v: &mut Vec<(u32, u32)>, i: usize, j: usize)
    requires
        i < old(v)@.len(),
        j < old(v)@.len(),
    ensures
        final(v)@ == old(v)@.update(i as int, old(v)@[j as int]).update(
            j as int,
            old(v)@[i as int],
        ),
        final(v)@.to_multiset() == old(v)@.to_multiset(),
{
    let ghost before = v@;
    let a = v[i];
    let b = v[j];
    v.set(i, b);
    v.set(j, a);
    proof {
        lemma_swap_multiset(before, i as int, j as int);
    }
}

/// Replacing an element exchanges one occurrence for another.
proof fn lemma_update_multiset(s: Seq<(u32, u32)>, i: int, x: (u32, u32))
    requires
        0 <= i < s.len(),
    ensures
        s.update(i, x).to_multiset() == s.to_multiset().remove(s[i]).insert(x),
    decreases s.len(),
{
    broadcast use vstd::seq_lib::group_to_multiset_ensures;

    let init = s.drop_last();
    let last = s.last();
    assert(s =~= init.push(last));
    if i == s.len() - 1 {
        assert(s.update(i, x) =~= init.push(x));
        assert(s.to_multiset().remove(s[i]) =~= init.to_multiset());
    } else {
        lemma_update_multiset(init, i, x);
        assert(s.update(i, x) =~= init.update(i, x).push(last));
        assert(init.contains(init[i]));
        assert(s.to_multiset().remove(s[i]).insert(x) =~= init.to_multiset().remove(s[i]).insert(
            x,
        ).insert(last));
    }
}

proof fn lemma_swap_multiset(s: Seq<(u32, u32)>, i: int, j: int)
    requires
        0 <= i < s.len(),
        0 <= j < s.len(),
    ensures
        s.update(i, s[j]).update(j, s[i]).to_multiset() == s.to_multiset(),
{
    broadcast use vstd::seq_lib::group_to_multiset_ensures;

    let t = s.update(i, s[j]);
    let u = t.update(j, s[i]);
    lemma_update_multiset(s, i, s[j]);
    lemma_update_multiset(t, j, s[i]);
    if i == j {
        assert(u =~= s);
    } else {
        assert(s.contains(s[i]));
        assert(u.to_multiset() =~= s.to_multiset());
    }
}

} // verus!

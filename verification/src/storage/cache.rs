//! The pieces that were read last are kept in memory.

use std::sync::Arc;
use vstd::prelude::*;

verus! {

/// A cache that drops what was used longest ago.
#[verifier::external_type_specification]
#[verifier::external_body]
#[verifier::reject_recursive_types(K)]
#[verifier::reject_recursive_types(V)]
#[verifier::reject_recursive_types(S)]
pub struct ExLruCache<K, V, S>(lru::LruCache<K, V, S>);

/// How the cache hashes its keys.
#[verifier::external_type_specification]
#[verifier::external_body]
pub struct ExLruHasher(lru::DefaultHasher);

/// What a cache of pieces holds, most recently used first.
pub uninterp spec fn cached(c: lru::LruCache<u32, Arc<Vec<u8>>>) -> Seq<(u32, Seq<u8>)>;

/// How many pieces a cache holds at most.
pub uninterp spec fn cache_limit(c: lru::LruCache<u32, Arc<Vec<u8>>>) -> nat;

/// The position of a piece, or the number of pieces.
pub open spec fn slot_of(s: Seq<(u32, Seq<u8>)>, k: u32) -> int
    decreases s.len(),
{
    if s.len() == 0 || s[0].0 == k {
        0
    } else {
        1 + slot_of(s.skip(1), k)
    }
}

/// The contents with a piece used now.
pub open spec fn touched(s: Seq<(u32, Seq<u8>)>, k: u32) -> Seq<(u32, Seq<u8>)> {
    let i = slot_of(s, k);
    if i < s.len() {
        seq![s[i]] + s.remove(i)
    } else {
        s
    }
}

/// The contents with a piece put in: it replaces an earlier copy, or else the
/// piece used longest ago if the cache is full.
pub open spec fn put_in(s: Seq<(u32, Seq<u8>)>, limit: nat, k: u32, v: Seq<u8>) -> Seq<
    (u32, Seq<u8>),
> {
    let i = slot_of(s, k);
    if i < s.len() {
        seq![(k, v)] + s.remove(i)
    } else if s.len() == limit {
        seq![(k, v)] + s.drop_last()
    } else {
        seq![(k, v)] + s
    }
}

/// The contents without a piece.
pub open spec fn taken_out(s: Seq<(u32, Seq<u8>)>, k: u32) -> Seq<(u32, Seq<u8>)> {
    let i = slot_of(s, k);
    if i < s.len() {
        s.remove(i)
    } else {
        s
    }
}

/// `lru::LruCache::new`: an empty cache of the given capacity.
#[verifier::external_body]
fn lru_new(limit: usize) -> (c: lru::LruCache<u32, Arc<Vec<u8>>>)
    requires
        limit > 0,
    ensures
        cached(c) == Seq::<(u32, Seq<u8>)>::empty(),
        cache_limit(c) == limit,
{
    lru::LruCache::new(std::num::NonZeroUsize::new(limit).unwrap())
}

/// `lru::LruCache::get`: the value of a key, which becomes the most recently
/// used one; nothing changes for a key that is not there.
#[verifier::external_body]
fn lru_get(c: &mut lru::LruCache<u32, Arc<Vec<u8>>>, k: u32) -> (r: Option<Arc<Vec<u8>>>)
    ensures
        cached(*final(c)) == touched(cached(*old(c)), k),
        cache_limit(*final(c)) == cache_limit(*old(c)),
        match r {
            Some(v) => slot_of(cached(*old(c)), k) < cached(*old(c)).len() && v@ == cached(
                *old(c),
            )[slot_of(cached(*old(c)), k)].1,
            None => slot_of(cached(*old(c)), k) == cached(*old(c)).len(),
        },
{
    c.get(&k).cloned()
}

/// `lru::LruCache::put`: binds a key, which becomes the most recently used
/// one. A full cache loses the least recently used entry to a new key.
#[verifier::external_body]
fn lru_put(c: &mut lru::LruCache<u32, Arc<Vec<u8>>>, k: u32, v: Arc<Vec<u8>>)
    requires
        cached(*old(c)).len() <= cache_limit(*old(c)),
        cache_limit(*old(c)) > 0,
    ensures
        cached(*final(c)) == put_in(cached(*old(c)), cache_limit(*old(c)), k, v@),
        cache_limit(*final(c)) == cache_limit(*old(c)),
{
    c.put(k, v);
}

/// `lru::LruCache::pop`: removes a key; the others keep their order.
#[verifier::external_body]
fn lru_pop(c: &mut lru::LruCache<u32, Arc<Vec<u8>>>, k: u32)
    ensures
        cached(*final(c)) == taken_out(cached(*old(c)), k),
        cache_limit(*final(c)) == cache_limit(*old(c)),
{
    c.pop(&k);
}

/// How many pieces are kept in memory: as many as fit the given number of
/// mebibytes, but not fewer than 64 nor more than 2048.
pub open spec fn entries_for(cache_size_mb: int, piece_length: int) -> int {
    if piece_length <= 0 {
        128
    } else {
        let bytes = if cache_size_mb * 1048576 > u64::MAX {
            u64::MAX as int
        } else {
            cache_size_mb * 1048576
        };
        let entries = bytes / piece_length;
        if entries < 64 {
            64
        } else if entries > 2048 {
            2048
        } else {
            entries
        }
    }
}

/// How many pieces are kept in memory.
pub fn cache_entries(cache_size_mb: usize, piece_length: u64) -> (r: usize)
    ensures
        r == entries_for(cache_size_mb as int, piece_length as int),
        1 <= r <= 2048,
{
    if piece_length == 0 {
        return 128;
    }
    let mb: u64 = cache_size_mb as u64;
    let bytes: u64 = match mb.checked_mul(1048576) {
        Some(b) => b,
        None => u64::MAX,
    };
    let entries: u64 = bytes / piece_length;
    if entries < 64 {
        64
    } else if entries > 2048 {
        2048
    } else {
        entries as usize
    }
}

/// The pieces that were read last.
pub struct ReadCache {
    cache: lru::LruCache<u32, Arc<Vec<u8>>>,
}

/// No piece is held twice.
pub open spec fn distinct_slots(s: Seq<(u32, Seq<u8>)>) -> bool {
    forall|i: int, j: int| 0 <= i < j < s.len() ==> (#[trigger] s[i]).0 != (#[trigger] s[j]).0
}

proof fn lemma_slot(s: Seq<(u32, Seq<u8>)>, k: u32)
    ensures
        0 <= slot_of(s, k) <= s.len(),
        slot_of(s, k) < s.len() ==> s[slot_of(s, k)].0 == k,
        forall|i: int| 0 <= i < slot_of(s, k) ==> (#[trigger] s[i]).0 != k,
    decreases s.len(),
{
    if s.len() > 0 && s[0].0 != k {
        lemma_slot(s.skip(1), k);
        assert forall|i: int| 0 <= i < slot_of(s, k) implies (#[trigger] s[i]).0 != k by {
            if i > 0 {
                assert(s.skip(1)[i - 1] == s[i]);
            }
        }
    }
}

proof fn lemma_slot_is(s: Seq<(u32, Seq<u8>)>, k: u32, p: int)
    requires
        0 <= p <= s.len(),
        p < s.len() ==> s[p].0 == k,
        forall|i: int| 0 <= i < p ==> (#[trigger] s[i]).0 != k,
    ensures
        slot_of(s, k) == p,
{
    lemma_slot(s, k);
    if slot_of(s, k) < p {
        assert(s[slot_of(s, k)].0 != k);
    }
    if p < slot_of(s, k) {
        assert(s[p].0 != k);
    }
}

impl ReadCache {
    /// The pieces in memory, most recently used first.
    pub closed spec fn held(&self) -> Seq<(u32, Seq<u8>)> {
        cached(self.cache)
    }

    /// How many pieces are kept at most.
    pub closed spec fn limit(&self) -> nat {
        cache_limit(self.cache)
    }

    /// No piece is held twice, and not more than the limit.
    pub open spec fn wf(&self) -> bool {
        distinct_slots(self.held()) && self.held().len() <= self.limit() && self.limit() > 0
    }

    /// The data held for a piece.
    pub open spec fn data_of(&self, index: u32) -> Option<Seq<u8>> {
        let i = slot_of(self.held(), index);
        if 0 <= i < self.held().len() {
            Some(self.held()[i].1)
        } else {
            None
        }
    }

    /// An empty cache for a torrent.
    pub fn new(cache_size_mb: usize, piece_length: u64) -> (r: ReadCache)
        ensures
            r.wf(),
            r.held() == Seq::<(u32, Seq<u8>)>::empty(),
            r.limit() == entries_for(cache_size_mb as int, piece_length as int),
    {
        ReadCache { cache: lru_new(cache_entries(cache_size_mb, piece_length)) }
    }

    /// The data held for a piece, which is then the most recently used.
    pub fn lookup(&mut self, index: u32) -> (r: Option<Arc<Vec<u8>>>)
        requires
            old(self).wf(),
        ensures
            final(self).wf(),
            final(self).held() == touched(old(self).held(), index),
            final(self).limit() == old(self).limit(),
            match r {
                Some(v) => old(self).data_of(index) == Some(v@),
                None => old(self).data_of(index) is None,
            },
    {
        proof {
            lemma_slot(self.held(), index);
            lemma_touched_distinct(self.held(), index);
        }
        lru_get(&mut self.cache, index)
    }

    /// Keeps the data of a piece that was read.
    pub fn store(&mut self, index: u32, data: Arc<Vec<u8>>)
        requires
            old(self).wf(),
        ensures
            final(self).wf(),
            final(self).held() == put_in(old(self).held(), old(self).limit(), index, data@),
            final(self).limit() == old(self).limit(),
            final(self).data_of(index) == Some(data@),
    {
        proof {
            lemma_put_distinct(self.held(), self.limit(), index, data@);
            lemma_slot_is(put_in(self.held(), self.limit(), index, data@), index, 0);
        }
        lru_put(&mut self.cache, index, data);
    }

    /// Forgets a piece, which was written anew.
    pub fn forget(&mut self, index: u32)
        requires
            old(self).wf(),
        ensures
            final(self).wf(),
            final(self).held() == taken_out(old(self).held(), index),
            final(self).limit() == old(self).limit(),
            final(self).data_of(index) is None,
    {
        proof {
            lemma_taken_distinct(self.held(), index);
        }
        lru_pop(&mut self.cache, index);
    }
}

proof fn lemma_touched_distinct(s: Seq<(u32, Seq<u8>)>, k: u32)
    requires
        distinct_slots(s),
    ensures
        distinct_slots(touched(s, k)),
        touched(s, k).len() == s.len(),
{
    lemma_slot(s, k);
    let i = slot_of(s, k);
    let t = touched(s, k);
    if i < s.len() {
        assert forall|a: int, b: int| 0 <= a < b < t.len() implies (#[trigger] t[a]).0 != (
        #[trigger] t[b]).0 by {
            let a2 = if a == 0 {
                i
            } else if a - 1 < i {
                a - 1
            } else {
                a
            };
            let b2 = if b - 1 < i {
                b - 1
            } else {
                b
            };
            assert(t[a] == s[a2] && t[b] == s[b2]);
            if a2 < b2 {
                assert(s[a2].0 != s[b2].0);
            } else {
                assert(s[b2].0 != s[a2].0);
            }
        }
    }
}

proof fn lemma_taken_distinct(s: Seq<(u32, Seq<u8>)>, k: u32)
    requires
        distinct_slots(s),
    ensures
        distinct_slots(taken_out(s, k)),
        taken_out(s, k).len() <= s.len(),
        slot_of(taken_out(s, k), k) == taken_out(s, k).len(),
        forall|i: int| 0 <= i < taken_out(s, k).len() ==> (#[trigger] taken_out(s, k)[i]).0 != k,
{
    lemma_slot(s, k);
    let i = slot_of(s, k);
    let t = taken_out(s, k);
    assert forall|a: int| 0 <= a < t.len() implies (#[trigger] t[a]).0 != k by {
        if i < s.len() {
            if a < i {
                assert(t[a] == s[a]);
            } else {
                assert(t[a] == s[a + 1]);
                assert(s[i].0 != s[a + 1].0);
            }
        }
    }
    assert forall|a: int, b: int| 0 <= a < b < t.len() implies (#[trigger] t[a]).0 != (
    #[trigger] t[b]).0 by {
        let a2 = if i < s.len() && a >= i {
            a + 1
        } else {
            a
        };
        let b2 = if i < s.len() && b >= i {
            b + 1
        } else {
            b
        };
        assert(s[a2].0 != s[b2].0);
    }
    lemma_slot_is(t, k, t.len() as int);
}

proof fn lemma_put_distinct(s: Seq<(u32, Seq<u8>)>, limit: nat, k: u32, v: Seq<u8>)
    requires
        distinct_slots(s),
        s.len() <= limit,
        limit > 0,
    ensures
        distinct_slots(put_in(s, limit, k, v)),
        put_in(s, limit, k, v).len() <= limit,
        put_in(s, limit, k, v)[0] == (k, v),
{
    lemma_slot(s, k);
    lemma_taken_distinct(s, k);
    let rest = taken_out(s, k);
    let kept = if slot_of(s, k) == s.len() && s.len() == limit {
        s.drop_last()
    } else {
        rest
    };
    let t = put_in(s, limit, k, v);
    assert(t =~= seq![(k, v)] + kept);
    assert forall|a: int, b: int| 0 <= a < b < t.len() implies (#[trigger] t[a]).0 != (
    #[trigger] t[b]).0 by {
        assert(t[b] == kept[b - 1]);
        assert(kept[b - 1] == rest[b - 1]);
        if a == 0 {
            assert(rest[b - 1].0 != k);
        } else {
            assert(t[a] == kept[a - 1]);
            assert(rest[a - 1].0 != rest[b - 1].0);
        }
    }
}

} // verus!

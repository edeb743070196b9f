//! The connected peers of a torrent.

use crate::net::SocketAddrV4;
use vstd::prelude::*;

verus! {

/// What the choking rounds need to know of a peer.
#[derive(Debug, Clone, Copy)]
pub struct PeerStats {
    pub downloaded: u64,
    pub am_choking: bool,
    pub peer_interested: bool,
}

/// The connected peers, each address once.
#[derive(Debug)]
pub struct PeerTable {
    entries: Vec<(SocketAddrV4, PeerStats)>,
}

/// The position of an address, or the number of entries.
pub open spec fn place_of(e: Seq<(SocketAddrV4, PeerStats)>, a: SocketAddrV4) -> int
    decreases e.len(),
{
    if e.len() == 0 || e[0].0 == a {
        0
    } else {
        1 + place_of(e.skip(1), a)
    }
}

/// The entries with that of an address set: where it stands, or at the end.
pub open spec fn with_entry(
    e: Seq<(SocketAddrV4, PeerStats)>,
    a: SocketAddrV4,
    s: PeerStats,
) -> Seq<(SocketAddrV4, PeerStats)> {
    if place_of(e, a) < e.len() {
        e.update(place_of(e, a), (a, s))
    } else {
        e.push((a, s))
    }
}

/// The entries without that of an address, the others in order.
pub open spec fn without_entry(e: Seq<(SocketAddrV4, PeerStats)>, a: SocketAddrV4) -> Seq<
    (SocketAddrV4, PeerStats),
> {
    if place_of(e, a) < e.len() {
        e.remove(place_of(e, a))
    } else {
        e
    }
}

/// No address occurs twice.
pub open spec fn unique(e: Seq<(SocketAddrV4, PeerStats)>) -> bool {
    forall|i: int, j: int| 0 <= i < j < e.len() ==> (#[trigger] e[i]).0 != (#[trigger] e[j]).0
}

proof fn lemma_place(e: Seq<(SocketAddrV4, PeerStats)>, a: SocketAddrV4)
    ensures
        0 <= place_of(e, a) <= e.len(),
        place_of(e, a) < e.len() ==> e[place_of(e, a)].0 == a,
        forall|i: int| 0 <= i < place_of(e, a) ==> (#[trigger] e[i]).0 != a,
    decreases e.len(),
{
    if e.len() > 0 && e[0].0 != a {
        lemma_place(e.skip(1), a);
        assert forall|i: int| 0 <= i < place_of(e, a) implies (#[trigger] e[i]).0 != a by {
            if i > 0 {
                assert(e.skip(1)[i - 1] == e[i]);
            }
        }
    }
}

proof fn lemma_place_is(e: Seq<(SocketAddrV4, PeerStats)>, a: SocketAddrV4, k: int)
    requires
        0 <= k <= e.len(),
        k < e.len() ==> e[k].0 == a,
        forall|i: int| 0 <= i < k ==> (#[trigger] e[i]).0 != a,
    ensures
        place_of(e, a) == k,
{
    lemma_place(e, a);
    let p = place_of(e, a);
    if p < k {
        assert(e[p].0 != a);
    }
    if k < p {
        assert(e[k].0 != a);
    }
}

impl View for PeerTable {
    type V = Map<SocketAddrV4, PeerStats>;

    closed spec fn view(&self) -> Map<SocketAddrV4, PeerStats> {
        Map::new(
            |a: SocketAddrV4| place_of(self.entries@, a) < self.entries@.len(),
            |a: SocketAddrV4| self.entries@[place_of(self.entries@, a)].1,
        )
    }
}

impl PeerTable {
    /// No address occurs twice.
    pub closed spec fn wf(&self) -> bool {
        unique(self.entries@)
    }

    /// The peers in the order in which they connected.
    pub closed spec fn listed(&self) -> Seq<(SocketAddrV4, PeerStats)> {
        self.entries@
    }

    /// The list of peers is the table, entry by entry.
    pub proof fn law_listed(&self)
        requires
            self.wf(),
        ensures
            unique(self.listed()),
            forall|i: int|
                0 <= i < self.listed().len() ==> self@.contains_key((#[trigger] self.listed()[i]).0)
                    && self@[self.listed()[i].0] == self.listed()[i].1,
            forall|a: SocketAddrV4|
                #[trigger] self@.contains_key(a) ==> exists|i: int|
                    0 <= i < self.listed().len() && (#[trigger] self.listed()[i]).0 == a,
    {
        let e = self.entries@;
        assert forall|i: int| 0 <= i < e.len() implies self@.contains_key((#[trigger] e[i]).0)
            && self@[e[i].0] == e[i].1 by {
            lemma_place_is(e, e[i].0, i);
        }
        assert forall|a: SocketAddrV4| #[trigger] self@.contains_key(a) implies exists|i: int|
            0 <= i < e.len() && (#[trigger] e[i]).0 == a by {
            lemma_place(e, a);
            assert(e[place_of(e, a)].0 == a);
        }
    }

    /// No peers.
    pub fn new() -> (r: PeerTable)
        ensures
            r.wf(),
            r@ == Map::<SocketAddrV4, PeerStats>::empty(),
            r.listed() == Seq::<(SocketAddrV4, PeerStats)>::empty(),
    {
        let r = PeerTable { entries: Vec::new() };
        assert(r@ =~= Map::<SocketAddrV4, PeerStats>::empty());
        r
    }

    /// The number of peers.
    pub fn len(&self) -> (r: usize)
        ensures
            r == self.listed().len(),
    {
        self.entries.len()
    }

    /// The peer at a position.
    pub fn at(&self, i: usize) -> (r: (SocketAddrV4, PeerStats))
        requires
            i < self.listed().len(),
        ensures
            r == self.listed()[i as int],
    {
        self.entries[i]
    }

    fn find(&self, a: SocketAddrV4) -> (r: usize)
        ensures
            r == place_of(self.entries@, a),
            r <= self.entries@.len(),
    {
        let mut i: usize = 0;
        while i < self.entries.len() && self.entries[i].0 != a
            invariant
                i <= self.entries.len(),
                forall|k: int| 0 <= k < i ==> (#[trigger] self.entries@[k]).0 != a,
            decreases self.entries.len() - i,
        {
            i += 1;
        }
        proof {
            lemma_place_is(self.entries@, a, i as int);
        }
        i
    }

    /// What is known of a peer.
    pub fn get(&self, a: SocketAddrV4) -> (r: Option<PeerStats>)
        ensures
            match r {
                Some(s) => self@.contains_key(a) && s == self@[a],
                None => !self@.contains_key(a),
            },
    {
        let i: usize = self.find(a);
        if i < self.entries.len() {
            Some(self.entries[i].1)
        } else {
            None
        }
    }

    /// Records what is known of a peer.
    pub fn insert(&mut self, a: SocketAddrV4, s: PeerStats)
        requires
            old(self).wf(),
        ensures
            final(self).wf(),
            final(self)@ == old(self)@.insert(a, s),
            final(self).listed() == with_entry(old(self).listed(), a, s),
    {
        let i: usize = self.find(a);
        let ghost before = self.entries@;
        proof {
            lemma_place(before, a);
        }
        if i < self.entries.len() {
            self.entries.set(i, (a, s));
        } else {
            self.entries.push((a, s));
        }
        proof {
            let e = self.entries@;
            assert forall|b: SocketAddrV4| {
                let p = place_of(before, b);
                &&& 0 <= p <= before.len()
                &&& b != a && p < before.len() ==> e[p] == before[p]
                &&& #[trigger] place_of(e, b) == if b == a {
                    i as int
                } else if p < before.len() {
                    p
                } else {
                    e.len() as int
                }
            } by {
                lemma_place(before, b);
                let p = place_of(before, b);
                if b == a {
                    assert forall|k: int| 0 <= k < i implies (#[trigger] e[k]).0 != a by {
                        assert(before[k].0 != a);
                    }
                    lemma_place_is(e, b, i as int);
                } else if p < before.len() {
                    assert forall|k: int| 0 <= k < p implies (#[trigger] e[k]).0 != b by {
                        assert(before[k].0 != b);
                    }
                    lemma_place_is(e, b, p);
                } else {
                    assert forall|k: int| 0 <= k < e.len() implies (#[trigger] e[k]).0 != b by {
                        if k < before.len() {
                            assert(before[k].0 != b);
                        }
                    }
                    lemma_place_is(e, b, e.len() as int);
                }
            }
            assert(self@ =~= old(self)@.insert(a, s));
            assert forall|x: int, y: int| 0 <= x < y < e.len() implies (#[trigger] e[x]).0 != (
            #[trigger] e[y]).0 by {
                if y < before.len() {
                    assert(before[x].0 != before[y].0);
                } else {
                    assert(before[x].0 != a);
                }
            }
        }
    }

    /// Forgets a peer.
    pub fn remove(&mut self, a: SocketAddrV4)
        requires
            old(self).wf(),
        ensures
            final(self).wf(),
            final(self)@ == old(self)@.remove(a),
            final(self).listed() == without_entry(old(self).listed(), a),
    {
        let i: usize = self.find(a);
        let ghost before = self.entries@;
        proof {
            lemma_place(before, a);
        }
        if i < self.entries.len() {
            self.entries.remove(i);
        }
        proof {
            let e = self.entries@;
            assert forall|k: int| 0 <= k < e.len() implies (#[trigger] e[k]).0 != a by {
                if i < before.len() {
                    if k < i {
                        assert(before[k].0 != a);
                    } else {
                        assert(e[k] == before[k + 1]);
                        assert(before[i as int].0 != before[k + 1].0);
                    }
                } else {
                    assert(before[k].0 != a);
                }
            }
            assert forall|b: SocketAddrV4| b != a implies {
                let p = place_of(before, b);
                &&& 0 <= p <= before.len()
                &&& p < before.len() ==> place_of(e, b) < e.len() && e[place_of(e, b)] == before[p]
                &&& #[trigger] place_of(e, b) == if p < before.len() {
                    if i < before.len() && p > i {
                        p - 1
                    } else {
                        p
                    }
                } else {
                    e.len() as int
                }
            } by {
                lemma_place(before, b);
                let p = place_of(before, b);
                let q = if p < before.len() {
                    if i < before.len() && p > i {
                        p - 1
                    } else {
                        p
                    }
                } else {
                    e.len() as int
                };
                assert forall|k: int| 0 <= k < q implies (#[trigger] e[k]).0 != b by {
                    if i < before.len() && k >= i {
                        assert(e[k] == before[k + 1]);
                    } else {
                        assert(e[k] == before[k]);
                    }
                }
                lemma_place_is(e, b, q);
            }
            lemma_place_is(e, a, e.len() as int);
            assert(self@ =~= old(self)@.remove(a));
            assert forall|x: int, y: int| 0 <= x < y < e.len() implies (#[trigger] e[x]).0 != (
            #[trigger] e[y]).0 by {
                let x2 = if i < before.len() && x >= i {
                    x + 1
                } else {
                    x
                };
                let y2 = if i < before.len() && y >= i {
                    y + 1
                } else {
                    y
                };
                assert(before[x2].0 != before[y2].0);
            }
        }
    }

    /// Sets for each peer whether it is choked: all but the given ones.
    pub fn choke_all_but(&mut self, unchoked: &Vec<SocketAddrV4>)
        requires
            old(self).wf(),
        ensures
            final(self).wf(),
            final(self).listed() == Seq::new(
                old(self).listed().len(),
                |i: int|
                    (
                        old(self).listed()[i].0,
                        PeerStats {
                            am_choking: !unchoked@.contains(old(self).listed()[i].0),
                            ..old(self).listed()[i].1
                        },
                    ),
            ),
    {
        let ghost before = self.entries@;
        let mut i: usize = 0;
        while i < self.entries.len()
            invariant
                i <= self.entries.len(),
                self.entries@.len() == before.len(),
                forall|k: int|
                    0 <= k < before.len() ==> #[trigger] self.entries@[k] == if k < i {
                        (
                            before[k].0,
                            PeerStats {
                                am_choking: !unchoked@.contains(before[k].0),
                                ..before[k].1
                            },
                        )
                    } else {
                        before[k]
                    },
            decreases self.entries.len() - i,
        {
            let (a, s) = self.entries[i];
            let kept = contains_addr(unchoked, a);
            self.entries.set(
                i,
                (
                    a,
                    PeerStats {
                        downloaded: s.downloaded,
                        am_choking: !kept,
                        peer_interested: s.peer_interested,
                    },
                ),
            );
            i += 1;
        }
        assert(self.listed() =~= Seq::new(
            before.len(),
            |i: int|
                (
                    before[i].0,
                    PeerStats { am_choking: !unchoked@.contains(before[i].0), ..before[i].1 },
                ),
        ));
        assert forall|x: int, y: int| 0 <= x < y < self.entries@.len() implies (
        #[trigger] self.entries@[x]).0 != (#[trigger] self.entries@[y]).0 by {
            assert(before[x].0 != before[y].0);
        }
    }
}

/// Whether a list holds an address.
pub fn contains_addr(list: &Vec<SocketAddrV4>, a: SocketAddrV4) -> (r: bool)
    ensures
        r == list@.contains(a),
{
    let mut i: usize = 0;
    while i < list.len()
        invariant
            i <= list.len(),
            forall|k: int| 0 <= k < i ==> #[trigger] list@[k] != a,
        decreases list.len() - i,
    {
        if list[i] == a {
            assert(list@[i as int] == a);
            return true;
        }
        i += 1;
    }
    false
}

} // verus!

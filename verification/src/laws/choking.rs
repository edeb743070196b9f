//! Which peers may download.

use crate::net::SocketAddrV4;
use crate::network::choke::{
    earlier, fastest, interested_speeds, left_out, rechoked, regular_slots, settled, speed,
    speed_keys, totals, unchoked, in_turn,
};
use crate::network::peers::{unique, PeerStats};
use crate::sort::{in_stable_order, is_stable_order, lemma_order_reaches};
use vstd::prelude::*;

verus! {

/// What the last round counted for an address: nothing if it did not list it.
pub open spec fn counted(prev: Seq<(SocketAddrV4, u64)>, a: SocketAddrV4, n: u64) -> bool {
    ||| exists|k: int| 0 <= k < prev.len() && (#[trigger] prev[k]) == (a, n) && forall|j: int|
        0 <= j < prev.len() && j != k ==> (#[trigger] prev[j]).0 != a
    ||| n == 0 && forall|k: int| 0 <= k < prev.len() ==> (#[trigger] prev[k]).0 != a
}

proof fn lemma_earlier(prev: Seq<(SocketAddrV4, u64)>, a: SocketAddrV4, n: u64)
    requires
        counted(prev, a, n),
    ensures
        earlier(prev, a) == n,
    decreases prev.len(),
{
    if prev.len() > 0 {
        let rest = prev.skip(1);
        if prev[0].0 == a {
            if exists|k: int| 0 <= k < prev.len() && (#[trigger] prev[k]) == (a, n) && forall|j: int|
                0 <= j < prev.len() && j != k ==> (#[trigger] prev[j]).0 != a {
                let k = choose|k: int|
                    0 <= k < prev.len() && (#[trigger] prev[k]) == (a, n) && forall|j: int|
                        0 <= j < prev.len() && j != k ==> (#[trigger] prev[j]).0 != a;
                assert(k == 0);
            }
        } else {
            assert(counted(rest, a, n)) by {
                if exists|k: int|
                    0 <= k < prev.len() && (#[trigger] prev[k]) == (a, n) && forall|j: int|
                        0 <= j < prev.len() && j != k ==> (#[trigger] prev[j]).0 != a {
                    let k = choose|k: int|
                        0 <= k < prev.len() && (#[trigger] prev[k]) == (a, n) && forall|j: int|
                            0 <= j < prev.len() && j != k ==> (#[trigger] prev[j]).0 != a;
                    assert(rest[k - 1] == (a, n));
                    assert forall|j: int| 0 <= j < rest.len() && j != k - 1 implies (
                    #[trigger] rest[j]).0 != a by {
                        assert(rest[j] == prev[j + 1]);
                    }
                } else {
                    assert forall|j: int| 0 <= j < rest.len() implies (#[trigger] rest[j]).0 != a by {
                        assert(rest[j] == prev[j + 1]);
                    }
                }
            }
            lemma_earlier(rest, a, n);
        }
    }
}

/// Where an interested peer stands among the speeds.
proof fn lemma_listed(
    peers: Seq<(SocketAddrV4, PeerStats)>,
    prev: Seq<(SocketAddrV4, u64)>,
    n: int,
    i: int,
) -> (k: int)
    requires
        0 <= i < n <= peers.len(),
        peers[i].1.peer_interested,
    ensures
        0 <= k < interested_speeds(peers, prev, n).len(),
        interested_speeds(peers, prev, n)[k] == (peers[i].0, speed(prev, peers[i])),
    decreases n,
{
    if i == n - 1 {
        interested_speeds(peers, prev, n - 1).len() as int
    } else {
        lemma_listed(peers, prev, n - 1, i)
    }
}

/// Which peer an entry among the speeds belongs to.
proof fn lemma_owner(
    peers: Seq<(SocketAddrV4, PeerStats)>,
    prev: Seq<(SocketAddrV4, u64)>,
    n: int,
    k: int,
) -> (i: int)
    requires
        0 <= n <= peers.len(),
        0 <= k < interested_speeds(peers, prev, n).len(),
    ensures
        0 <= i < n,
        peers[i].1.peer_interested,
        interested_speeds(peers, prev, n)[k] == (peers[i].0, speed(prev, peers[i])),
    decreases n,
{
    if k < interested_speeds(peers, prev, n - 1).len() {
        lemma_owner(peers, prev, n - 1, k)
    } else {
        n - 1
    }
}

/// No address stands twice among the speeds.
proof fn lemma_speeds_distinct(
    peers: Seq<(SocketAddrV4, PeerStats)>,
    prev: Seq<(SocketAddrV4, u64)>,
    n: int,
)
    requires
        unique(peers),
        0 <= n <= peers.len(),
    ensures
        distinct(interested_speeds(peers, prev, n)),
    decreases n,
{
    if n > 0 {
        lemma_speeds_distinct(peers, prev, n - 1);
        let before = interested_speeds(peers, prev, n - 1);
        let all = interested_speeds(peers, prev, n);
        assert forall|j: int, k: int| 0 <= j < k < all.len() implies (#[trigger] all[j]).0 != (
        #[trigger] all[k]).0 by {
            assert(all[j] == before[j]);
            if k < before.len() {
                assert(all[k] == before[k]);
            } else {
                let i = lemma_owner(peers, prev, n - 1, j);
                assert(peers[i].0 != peers[n - 1].0);
            }
        }
    }
}

spec fn distinct(speeds: Seq<(SocketAddrV4, u64)>) -> bool {
    forall|j: int, k: int|
        0 <= j < k < speeds.len() ==> (#[trigger] speeds[j]).0 != (#[trigger] speeds[k]).0
}

/// Where an interested peer stands in the order of speeds.
proof fn lemma_stands(
    peers: Seq<(SocketAddrV4, PeerStats)>,
    prev: Seq<(SocketAddrV4, u64)>,
    order: Seq<usize>,
    i: int,
) -> (p: int)
    requires
        0 <= i < peers.len(),
        peers[i].1.peer_interested,
        is_stable_order(speed_keys(interested_speeds(peers, prev, peers.len() as int)), order),
    ensures
        0 <= p < order.len(),
        order[p] < interested_speeds(peers, prev, peers.len() as int).len(),
        interested_speeds(peers, prev, peers.len() as int)[order[p] as int] == (
            peers[i].0,
            speed(prev, peers[i]),
        ),
{
    let speeds = interested_speeds(peers, prev, peers.len() as int);
    let k = lemma_listed(peers, prev, peers.len() as int, i);
    lemma_order_reaches(speed_keys(speeds), order, k)
}

/// A faster peer stands before a slower one.
proof fn lemma_faster_first(
    speeds: Seq<(SocketAddrV4, u64)>,
    order: Seq<usize>,
    p: int,
    q: int,
)
    requires
        is_stable_order(speed_keys(speeds), order),
        0 <= p < order.len(),
        0 <= q < order.len(),
        speeds[order[p] as int].1 > speeds[order[q] as int].1,
    ensures
        p < q,
{
    let keys = speed_keys(speeds);
    assert(order[p] < keys.len() && order[q] < keys.len());
    if q < p {
        assert(in_stable_order(keys, order[q], order[p]));
    }
}

/// A peer's data since the last round, if it has given any.
pub open spec fn gained(
    p: (SocketAddrV4, PeerStats),
    prev: Seq<(SocketAddrV4, u64)>,
    before: u64,
) -> bool {
    p.1.peer_interested && counted(prev, p.0, before) && before <= p.1.downloaded
}

/// Of two interested peers the one that gave more since the last round, by the
/// totals then and now, is served first: if the other is unchoked in a round in
/// which nobody is unchoked out of order, it is too.
pub proof fn law_served_by_gain(
    peers: Seq<(SocketAddrV4, PeerStats)>,
    prev: Seq<(SocketAddrV4, u64)>,
    slots: int,
    after: Seq<(SocketAddrV4, PeerStats)>,
    i: int,
    j: int,
    pi: u64,
    pj: u64,
)
    requires
        unique(peers),
        settled(peers, prev, slots, false, after),
        0 <= i < peers.len(),
        0 <= j < peers.len(),
        gained(peers[i], prev, pi),
        gained(peers[j], prev, pj),
        peers[i].1.downloaded - pi > peers[j].1.downloaded - pj,
        !after[j].1.am_choking,
    ensures
        !after[i].1.am_choking,
{
    let speeds = interested_speeds(peers, prev, peers.len() as int);
    let (order, turn) = choose|order: Seq<usize>, turn: Option<int>|
        is_stable_order(speed_keys(speeds), order) && (turn is Some == false) && in_turn(
            speeds,
            order,
            slots,
            turn,
        ) && after == rechoked(peers, #[trigger] unchoked(speeds, order, slots, turn));
    let list = unchoked(speeds, order, slots, turn);
    lemma_earlier(prev, peers[i].0, pi);
    lemma_earlier(prev, peers[j].0, pj);
    let p = lemma_stands(peers, prev, order, i);
    let q = lemma_stands(peers, prev, order, j);
    lemma_faster_first(speeds, order, p, q);
    lemma_speeds_distinct(peers, prev, peers.len() as int);
    let n = regular_slots(slots, speeds.len() as int);
    assert(list.contains(peers[j].0));
    let m = list.index_of(peers[j].0);
    lemma_same_place(speeds, order, m, q);
    if n > 0 {
        assert(m == q);
        assert(list[p] == peers[i].0);
    }
}

/// In the order of speeds an address stands at one place.
proof fn lemma_same_place(speeds: Seq<(SocketAddrV4, u64)>, order: Seq<usize>, m: int, q: int)
    requires
        is_stable_order(speed_keys(speeds), order),
        distinct(speeds),
    ensures
        0 <= m < order.len() && 0 <= q < order.len() && speeds[order[m] as int].0
            == speeds[order[q] as int].0 ==> m == q,
{
    if 0 <= m < order.len() && 0 <= q < order.len() && m != q {
        let keys = speed_keys(speeds);
        assert(order[m] < keys.len() && order[q] < keys.len());
        if m < q {
            assert(in_stable_order(keys, order[m], order[q]));
        } else {
            assert(in_stable_order(keys, order[q], order[m]));
        }
        let x = order[m] as int;
        let y = order[q] as int;
        if x < y {
            assert(speeds[x].0 != speeds[y].0);
        } else {
            assert(speeds[y].0 != speeds[x].0);
        }
    }
}

/// A round in which a peer may be unchoked out of order unchokes only one so:
/// if a peer stays choked, at most one of those that gave less is unchoked.
pub proof fn law_one_out_of_order(
    peers: Seq<(SocketAddrV4, PeerStats)>,
    prev: Seq<(SocketAddrV4, u64)>,
    slots: int,
    due: bool,
    after: Seq<(SocketAddrV4, PeerStats)>,
    i: int,
    j: int,
    k: int,
    pi: u64,
    pj: u64,
    pk: u64,
)
    requires
        unique(peers),
        settled(peers, prev, slots, due, after),
        0 <= i < peers.len(),
        0 <= j < k < peers.len(),
        gained(peers[i], prev, pi),
        gained(peers[j], prev, pj),
        gained(peers[k], prev, pk),
        peers[i].1.downloaded - pi > peers[j].1.downloaded - pj,
        peers[i].1.downloaded - pi > peers[k].1.downloaded - pk,
        !after[j].1.am_choking,
        !after[k].1.am_choking,
    ensures
        !after[i].1.am_choking,
{
    let speeds = interested_speeds(peers, prev, peers.len() as int);
    let (order, turn) = choose|order: Seq<usize>, turn: Option<int>|
        is_stable_order(speed_keys(speeds), order) && (turn is Some == due) && in_turn(
            speeds,
            order,
            slots,
            turn,
        ) && after == rechoked(peers, #[trigger] unchoked(speeds, order, slots, turn));
    let list = unchoked(speeds, order, slots, turn);
    lemma_earlier(prev, peers[i].0, pi);
    lemma_earlier(prev, peers[j].0, pj);
    lemma_earlier(prev, peers[k].0, pk);
    let p = lemma_stands(peers, prev, order, i);
    let q = lemma_stands(peers, prev, order, j);
    let r = lemma_stands(peers, prev, order, k);
    lemma_faster_first(speeds, order, p, q);
    lemma_faster_first(speeds, order, p, r);
    lemma_speeds_distinct(peers, prev, peers.len() as int);
    let n = regular_slots(slots, speeds.len() as int);
    assert(peers[j].0 != peers[k].0);
    let x = list.index_of(peers[j].0);
    let y = list.index_of(peers[k].0);
    assert(list.contains(peers[j].0) && list.contains(peers[k].0));
    assert(x != y);
    let m = if x < y {
        x
    } else {
        y
    };
    let s = if x < y {
        q
    } else {
        r
    };
    assert(m < n);
    assert(list[m] == speeds[order[m] as int].0);
    lemma_same_place(speeds, order, m, s);
    assert(list[p] == peers[i].0);
}

/// How many peers are interested.
pub open spec fn interested(peers: Seq<(SocketAddrV4, PeerStats)>, n: int) -> int
    decreases n,
{
    if n <= 0 {
        0
    } else {
        interested(peers, n - 1) + if peers[n - 1].1.peer_interested {
            1int
        } else {
            0int
        }
    }
}

proof fn lemma_interested(
    peers: Seq<(SocketAddrV4, PeerStats)>,
    prev: Seq<(SocketAddrV4, u64)>,
    n: int,
)
    ensures
        interested_speeds(peers, prev, n).len() == interested(peers, n),
    decreases n,
{
    if n > 0 {
        lemma_interested(peers, prev, n - 1);
    }
}

proof fn lemma_left_out(
    speeds: Seq<(SocketAddrV4, u64)>,
    chosen: Seq<SocketAddrV4>,
    n: int,
)
    requires
        0 <= n <= speeds.len(),
    ensures
        forall|k: int|
            0 <= k < left_out(speeds, chosen, n).len() ==> !chosen.contains(
                #[trigger] left_out(speeds, chosen, n)[k],
            ) && exists|i: int|
                0 <= i < n && (#[trigger] speeds[i]).0 == left_out(speeds, chosen, n)[k],
        forall|i: int|
            #![trigger speeds[i]]
            0 <= i < n && !chosen.contains(speeds[i].0) ==> left_out(speeds, chosen, n).len() > 0,
    decreases n,
{
    if n > 0 {
        lemma_left_out(speeds, chosen, n - 1);
        let before = left_out(speeds, chosen, n - 1);
        let all = left_out(speeds, chosen, n);
        assert forall|k: int| 0 <= k < all.len() implies !chosen.contains(#[trigger] all[k])
            && exists|i: int| 0 <= i < n && (#[trigger] speeds[i]).0 == all[k] by {
            if k < before.len() {
                assert(all[k] == before[k]);
                let i = choose|i: int| 0 <= i < n - 1 && (#[trigger] speeds[i]).0 == before[k];
                assert(speeds[i].0 == all[k]);
            } else {
                assert(speeds[n - 1].0 == all[k]);
            }
        }
    }
}

/// How many peers a round unchokes: as many as there are slots for, one less if
/// nobody is unchoked out of order, but at least one, and never more than are
/// interested. Only interested peers are unchoked, all others are choked, and
/// nothing else changes.
pub proof fn law_slots_filled(
    peers: Seq<(SocketAddrV4, PeerStats)>,
    prev: Seq<(SocketAddrV4, u64)>,
    slots: int,
    due: bool,
    after: Seq<(SocketAddrV4, PeerStats)>,
)
    requires
        unique(peers),
        settled(peers, prev, slots, due, after),
    ensures
        after.len() == peers.len(),
        forall|i: int|
            #![trigger after[i]]
            0 <= i < peers.len() ==> {
                &&& after[i].0 == peers[i].0
                &&& after[i].1.downloaded == peers[i].1.downloaded
                &&& after[i].1.peer_interested == peers[i].1.peer_interested
                &&& !after[i].1.am_choking ==> peers[i].1.peer_interested
            },
        exists|open: Seq<SocketAddrV4>|
            #![trigger open.no_duplicates()]
            {
                let wanted = interested(peers, peers.len() as int);
                let room: int = if due && slots > 0 {
                    slots
                } else if slots > 1 {
                    slots - 1
                } else {
                    1
                };
                &&& open.no_duplicates()
                &&& open.len() == if room < wanted {
                    room
                } else {
                    wanted
                }
                &&& forall|i: int|
                    #![trigger after[i]]
                    0 <= i < after.len() ==> (!after[i].1.am_choking <==> open.contains(after[i].0))
                &&& forall|k: int|
                    0 <= k < open.len() ==> exists|i: int|
                        0 <= i < peers.len() && (#[trigger] peers[i]).0 == (#[trigger] open[k])
            },
{
    let speeds = interested_speeds(peers, prev, peers.len() as int);
    let (order, turn) = choose|order: Seq<usize>, turn: Option<int>|
        is_stable_order(speed_keys(speeds), order) && (turn is Some == due) && in_turn(
            speeds,
            order,
            slots,
            turn,
        ) && after == rechoked(peers, #[trigger] unchoked(speeds, order, slots, turn));
    let list = unchoked(speeds, order, slots, turn);
    let n = regular_slots(slots, speeds.len() as int);
    let regular = fastest(speeds, order, n);
    let others = left_out(speeds, regular, speeds.len() as int);
    lemma_interested(peers, prev, peers.len() as int);
    lemma_speeds_distinct(peers, prev, peers.len() as int);
    lemma_left_out(speeds, regular, speeds.len() as int);
    assert forall|x: int, y: int| 0 <= x < y < n implies #[trigger] regular[x]
        != #[trigger] regular[y] by {
        lemma_same_place(speeds, order, x, y);
    }
    if speeds.len() > 0 {
        assert(order[0] < speed_keys(speeds).len());
    }
    if n < speeds.len() {
        let last = speeds[order[n] as int];
        assert(order[n] < speed_keys(speeds).len());
        if regular.contains(last.0) {
            let x = regular.index_of(last.0);
            lemma_same_place(speeds, order, x, n);
        }
        assert(others.len() > 0);
    } else {
        assert forall|i: int| 0 <= i < speeds.len() implies regular.contains(
            (#[trigger] speeds[i]).0,
        ) by {
            let x = lemma_order_reaches(speed_keys(speeds), order, i);
            assert(regular[x] == speeds[i].0);
        }
        if others.len() > 0 {
            assert(!regular.contains(others[0]));
        }
    }
    assert(list.no_duplicates());
    assert forall|k: int| 0 <= k < list.len() implies exists|i: int|
        0 <= i < peers.len() && (#[trigger] peers[i]).0 == (#[trigger] list[k])
            && peers[i].1.peer_interested by {
        let s = if k < n {
            assert(order[k] < speed_keys(speeds).len());
            order[k] as int
        } else if n == 0 && (turn is None || others.len() == 0) {
            order[0] as int
        } else {
            assert(list[k] == others[turn->0]);
            choose|s: int| 0 <= s < speeds.len() && (#[trigger] speeds[s]).0 == others[turn->0]
        };
        assert(speeds[s].0 == list[k]);
        let i = lemma_owner(peers, prev, peers.len() as int, s);
        assert(peers[i].0 == list[k]);
    }
    assert forall|i: int|
        #![trigger after[i]]
        0 <= i < peers.len() && !after[i].1.am_choking implies peers[i].1.peer_interested by {
        let k = list.index_of(peers[i].0);
        assert(list.contains(peers[i].0));
        let m = choose|m: int|
            0 <= m < peers.len() && (#[trigger] peers[m]).0 == list[k] && peers[m].1.peer_interested;
        if m < i {
            assert(peers[m].0 != peers[i].0);
        } else if i < m {
            assert(peers[i].0 != peers[m].0);
        }
    }
}

/// What a round hands to the next: for each peer, in order, what was downloaded
/// from it.
pub proof fn law_totals_handed_on(peers: Seq<(SocketAddrV4, PeerStats)>, i: int)
    requires
        unique(peers),
        0 <= i < peers.len(),
    ensures
        totals(peers).len() == peers.len(),
        totals(peers)[i].0 == peers[i].0,
        counted(totals(peers), peers[i].0, peers[i].1.downloaded),
{
    let t = totals(peers);
    assert(t[i] == (peers[i].0, peers[i].1.downloaded));
    assert forall|j: int| 0 <= j < t.len() && j != i implies (#[trigger] t[j]).0 != peers[i].0 by {
        assert(t[j].0 == peers[j].0);
        if j < i {
            assert(peers[j].0 != peers[i].0);
        } else {
            assert(peers[i].0 != peers[j].0);
        }
    }
}

} // verus!

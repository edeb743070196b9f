//! How much is let through, and which nodes are looked after.

use crate::dht::limits::{allowed, idle, RateLimiter, DHT_QUERIES_PER_SECOND};
use crate::dht::lookup::{
    failed, heard_of, id_position, lemma_id_position, responded, MaybeUsefulNode,
};
use crate::dht::protocol::Content;
use crate::dht::routing_table::node::{NodeStatus, RoutingTableNode};
use crate::dht::routing_table::tree::BucketTreeNode;
use crate::dht::tasks::{family_addresses, of_family, stale_places, unsettled};
use crate::laws::exchange::second;
use crate::net::SocketAddr;
use crate::types::InfoHash;
use vstd::prelude::*;

verus! {

/// What an address may send: a hundred packets at once, and fifty more for
/// each full second, up to a hundred.
pub proof fn law_address_limit(tokens: u32, last: u64, now: u64, k: int)
    requires
        tokens <= 100,
        0 <= k < 0x400_0000,
        last + k * second() <= now < last + (k + 1) * second(),
    ensures
        allowed(None, now) == ((99u32, now), true),
        ({
            let most: int = if tokens + 50 * k < 100 {
                tokens + 50 * k
            } else {
                100
            };
            let (after, taken) = allowed(Some((tokens, last)), now);
            &&& taken <==> most > 0
            &&& after.0 == if most > 0 {
                most - 1
            } else {
                0
            }
            &&& after.1 == if k > 0 {
                now
            } else {
                last
            }
        }),
{
    let e = now - last;
    assert(e / 1_000_000_000 == k);
    assert(k % 0x1_0000_0000 == k);
}

/// An address is forgotten once it has all its hundred packets left and was
/// quiet for more than five minutes.
pub proof fn law_address_forgotten(tokens: u32, last: u64, now: u64)
    ensures
        idle((tokens, last), now) <==> tokens >= 100 && now > last + 300 * second(),
{
}

/// Queries are limited to two hundred and fifty a second, a tenth of them at
/// once: each takes one of what is left and came in, up to that tenth.
pub proof fn law_query_limit(l: RateLimiter, refill: usize, now: u64)
    requires
        l.tokens <= l.capacity,
    ensures
        DHT_QUERIES_PER_SECOND == 250,
        l.is_full(DHT_QUERIES_PER_SECOND, now) ==> l.capacity == 25 && l.tokens == 25,
        l.refilled(refill) <= l.capacity,
        l.refilled(refill) == l.tokens + refill || l.refilled(refill) == l.capacity,
        l.asked(refill, now).tokens == if l.refilled(refill) > 0 {
            l.refilled(refill) - 1
        } else {
            0
        },
        l.asked(refill, now).capacity == l.capacity,
{
}

/// A lookup asks a node that it knows again only after a minute.
pub proof fn law_asked_again(
    nodes: Seq<MaybeUsefulNode>,
    limit: int,
    target: Seq<u8>,
    id: InfoHash,
    addr: SocketAddr,
    now: u64,
    k: int,
)
    requires
        0 <= k < nodes.len(),
        nodes[k].id@ == id@,
        forall|j: int| 0 <= j < k ==> (#[trigger] nodes[j]).id@ != id@,
    ensures
        heard_of(nodes, limit, target, id, addr, now).1 <==> now > nodes[k].last_request + 60
            * second(),
        heard_of(nodes, limit, target, id, addr, now).0.len() == nodes.len(),
        heard_of(nodes, limit, target, id, addr, now).1 ==> heard_of(
            nodes,
            limit,
            target,
            id,
            addr,
            now,
        ).0[k].last_request == now,
{
    lemma_first_id(nodes, id@, k);
}

proof fn lemma_first_id(nodes: Seq<MaybeUsefulNode>, id: Seq<u8>, k: int)
    requires
        0 <= k < nodes.len(),
        nodes[k].id@ == id,
        forall|j: int| 0 <= j < k ==> (#[trigger] nodes[j]).id@ != id,
    ensures
        id_position(nodes, id) == Some(k),
    decreases nodes.len(),
{
    let front = nodes.drop_last();
    if k < nodes.len() - 1 {
        assert(front[k] == nodes[k]);
        assert forall|j: int| 0 <= j < k implies (#[trigger] front[j]).id@ != id by {
            assert(front[j] == nodes[j]);
        }
        lemma_first_id(front, id, k);
    } else {
        lemma_id_position(front, id);
        if let Some(j) = id_position(front, id) {
            assert(front[j] == nodes[j]);
        }
    }
}

/// An answer is noted with its time, ends a run of failures, and says whether
/// the node knows peers; a failure makes the run longer.
pub proof fn law_answer_noted(n: MaybeUsefulNode, c: Content, now: u64)
    ensures
        responded(n, c, now).last_response == Some(now),
        responded(n, c, now).errors_in_a_row == 0,
        responded(n, c, now).id == n.id && responded(n, c, now).addr == n.addr,
        responded(n, c, now).last_request == n.last_request,
        c matches Content::GotPeers { values, .. } ==> responded(n, c, now).returned_peers == (
        values.len() != 0),
        !(c is GotPeers) ==> responded(n, c, now).returned_peers == n.returned_peers,
        n.errors_in_a_row < usize::MAX ==> failed(n).errors_in_a_row == n.errors_in_a_row + 1,
        failed(n).last_response == n.last_response && failed(n).returned_peers == n.returned_peers,
{
}

/// The nodes that are pinged are those of which it is not settled whether they
/// are good or bad.
pub proof fn law_pinged(nodes: Seq<RoutingTableNode>, now: u64, x: (InfoHash, SocketAddr))
    ensures
        unsettled(nodes, now).contains(x) <==> exists|k: int|
            0 <= k < nodes.len() && (#[trigger] nodes[k]).id == x.0 && nodes[k].addr == x.1
                && nodes[k].status_at(now) != NodeStatus::Good && nodes[k].status_at(now)
                != NodeStatus::Bad,
    decreases nodes.len(),
{
    if nodes.len() > 0 {
        let front = nodes.drop_last();
        law_pinged(front, now, x);
        let before = unsettled(front, now);
        let all = unsettled(nodes, now);
        let n = nodes.len() - 1;
        if all.contains(x) {
            let i = all.index_of(x);
            if i < before.len() {
                assert(before[i] == x);
                let k = choose|k: int|
                    0 <= k < front.len() && (#[trigger] front[k]).id == x.0 && front[k].addr == x.1
                        && front[k].status_at(now) != NodeStatus::Good && front[k].status_at(now)
                        != NodeStatus::Bad;
                assert(nodes[k] == front[k]);
            } else {
                assert(nodes[n].id == x.0);
            }
        }
        if exists|k: int|
            0 <= k < nodes.len() && (#[trigger] nodes[k]).id == x.0 && nodes[k].addr == x.1
                && nodes[k].status_at(now) != NodeStatus::Good && nodes[k].status_at(now)
                != NodeStatus::Bad {
            let k = choose|k: int|
                0 <= k < nodes.len() && (#[trigger] nodes[k]).id == x.0 && nodes[k].addr == x.1
                    && nodes[k].status_at(now) != NodeStatus::Good && nodes[k].status_at(now)
                    != NodeStatus::Bad;
            if k < n {
                assert(front[k] == nodes[k]);
                let i = before.index_of(x);
                assert(all[i] == x);
            } else {
                assert(all[before.len() as int] == x);
            }
        }
    }
}

/// The nodes of a family are those with an address of that family.
pub proof fn law_family_nodes(nodes: Seq<RoutingTableNode>, v4: bool, x: (InfoHash, SocketAddr))
    ensures
        of_family(nodes, v4).contains(x) <==> exists|k: int|
            0 <= k < nodes.len() && (#[trigger] nodes[k]).id == x.0 && nodes[k].addr == x.1 && (
            x.1 is V4) == v4,
    decreases nodes.len(),
{
    if nodes.len() > 0 {
        let front = nodes.drop_last();
        law_family_nodes(front, v4, x);
        let before = of_family(front, v4);
        let all = of_family(nodes, v4);
        let n = nodes.len() - 1;
        if all.contains(x) {
            let i = all.index_of(x);
            if i < before.len() {
                assert(before[i] == x);
                let k = choose|k: int|
                    0 <= k < front.len() && (#[trigger] front[k]).id == x.0 && front[k].addr == x.1
                        && (x.1 is V4) == v4;
                assert(nodes[k] == front[k]);
            } else {
                assert(nodes[n].id == x.0);
            }
        }
        if exists|k: int|
            0 <= k < nodes.len() && (#[trigger] nodes[k]).id == x.0 && nodes[k].addr == x.1 && (
            x.1 is V4) == v4 {
            let k = choose|k: int|
                0 <= k < nodes.len() && (#[trigger] nodes[k]).id == x.0 && nodes[k].addr == x.1 && (
                x.1 is V4) == v4;
            if k < n {
                assert(front[k] == nodes[k]);
                let i = before.index_of(x);
                assert(all[i] == x);
            } else {
                assert(all[before.len() as int] == x);
            }
        }
    }
}

/// Addresses are told apart by their family, and none is lost.
pub proof fn law_families(addrs: Seq<SocketAddr>, v4: bool, a: SocketAddr)
    ensures
        family_addresses(addrs, v4).contains(a) <==> addrs.contains(a) && (a is V4) == v4,
    decreases addrs.len(),
{
    if addrs.len() > 0 {
        let front = addrs.drop_last();
        law_families(front, v4, a);
        let before = family_addresses(front, v4);
        let all = family_addresses(addrs, v4);
        if all.contains(a) {
            let i = all.index_of(a);
            if i < before.len() {
                assert(before[i] == a);
                let k = front.index_of(a);
                assert(addrs[k] == a);
            } else {
                assert(addrs[addrs.len() - 1] == a);
            }
        }
        if addrs.contains(a) && (a is V4) == v4 {
            let k = addrs.index_of(a);
            if k < front.len() {
                assert(front[k] == a);
                let i = before.index_of(a);
                assert(all[i] == a);
            } else {
                assert(all[before.len() as int] == a);
            }
        }
    }
}

/// The buckets that are looked after are those that were not refreshed for more
/// than a quarter of an hour.
pub proof fn law_stale_buckets(data: Seq<BucketTreeNode>, places: Seq<usize>, now: u64, p: usize)
    ensures
        stale_places(data, places, now).contains(p) <==> places.contains(p) && now
            > data[p as int].data->Leaf_0.last_refreshed + 900 * second(),
    decreases places.len(),
{
    if places.len() > 0 {
        let front = places.drop_last();
        law_stale_buckets(data, front, now, p);
        let before = stale_places(data, front, now);
        let all = stale_places(data, places, now);
        if all.contains(p) {
            let i = all.index_of(p);
            if i < before.len() {
                assert(before[i] == p);
                let k = front.index_of(p);
                assert(places[k] == p);
            } else {
                assert(places[places.len() - 1] == p);
            }
        }
        if places.contains(p) && now > data[p as int].data->Leaf_0.last_refreshed + 900 * second() {
            let k = places.index_of(p);
            if k < front.len() {
                assert(front[k] == p);
                let i = before.index_of(p);
                assert(all[i] == p);
            } else {
                assert(all[before.len() as int] == p);
            }
        }
    }
}

} // verus!

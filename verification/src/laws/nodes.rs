//! What a node of the DHT knows and answers.

use crate::bytes::{be_bytes, byte_range, lemma_be_round_trip, lemma_byte_ranges, lex_less};
use crate::dht::compact::{compact_node, compact_peer};
use crate::dht::node::{
    compact_list, effective, lists_closest, plausible, wanted_addresses, wants, EXTERNAL_IP_VOTES,
};
use crate::dht::peer_store::{
    max_distance, peers_of, position_of_addr, stored, token_known, PeerStore, StoredPeer,
};
use crate::dht::protocol::Want;
use crate::dht::routing_table::node::{NodeStatus, RoutingTableNode};
use crate::dht::routing_table::table::{
    at_most, comes_before, in_order_of_closeness, law_ids_unique, usable_addresses,
};
use crate::dht::routing_table::RoutingTable;
use crate::laws::exchange::second;
use crate::laws::lookups::lists_nodes;
use crate::laws::wire::lemma_holds;
use crate::laws::{lemma_lex_witness, lemma_nearer, nearer, number, writes_addr};
use crate::net::{IpAddr, Ipv4Addr, SocketAddr};
use crate::types::{xor_bytes, InfoHash};
use vstd::prelude::*;

verus! {

/// Something happened within the last quarter of an hour.
pub open spec fn lately(t: Option<u64>, now: u64) -> bool {
    t matches Some(x) && now < x + 900 * second()
}

/// Something happened, but more than a quarter of an hour ago.
pub open spec fn once(t: Option<u64>, now: u64) -> bool {
    t matches Some(x) && now > x + 900 * second()
}

/// A node that was asked is bad after two failures in a row; else it is good as
/// long as it was heard of lately. A node that was heard of once and was not
/// asked since is questionable.
pub proof fn law_node_status(n: RoutingTableNode, now: u64)
    ensures
        n.status_at(now) == NodeStatus::Bad <==> n.last_request is Some && n.errors_in_a_row > 1,
        n.status_at(now) == NodeStatus::Good <==> n.last_request is Some && n.errors_in_a_row < 2
            && (lately(n.last_response, now) || lately(n.last_query, now)),
        n.status_at(now) == NodeStatus::Questionable <==> !(n.last_request is Some && (
        n.errors_in_a_row > 1 || lately(n.last_response, now) || lately(n.last_query, now))) && (
        once(n.last_response, now) || once(n.last_query, now)) && (n.last_request is None || once(
            n.last_request,
            now,
        )),
{
}

/// A status is better than another: good, questionable, unknown, bad.
pub open spec fn better(a: NodeStatus, b: NodeStatus) -> bool {
    match (a, b) {
        (NodeStatus::Good, NodeStatus::Good) => false,
        (NodeStatus::Good, _) => true,
        (NodeStatus::Questionable, NodeStatus::Unknown) => true,
        (NodeStatus::Questionable, NodeStatus::Bad) => true,
        (NodeStatus::Unknown, NodeStatus::Bad) => true,
        _ => false,
    }
}

/// A node is to be named before another: its status is better, or is the same
/// and it is nearer to the target.
pub open spec fn preferred(
    a: RoutingTableNode,
    b: RoutingTableNode,
    target: Seq<u8>,
    now: u64,
) -> bool {
    better(a.status_at(now), b.status_at(now)) || (a.status_at(now) == b.status_at(now) && nearer(
        a.id@,
        b.id@,
        target,
    ))
}

proof fn lemma_xor_swapped(a: Seq<u8>, b: Seq<u8>)
    requires
        a.len() == b.len(),
    ensures
        xor_bytes(a, b) == xor_bytes(b, a),
{
    let x = xor_bytes(a, b);
    let y = xor_bytes(b, a);
    assert forall|i: int| 0 <= i < x.len() implies x[i] == y[i] by {
        let p = a[i];
        let q = b[i];
        assert(p ^ q == q ^ p) by (bit_vector);
    }
    assert(x =~= y);
}

proof fn lemma_preferred(a: RoutingTableNode, b: RoutingTableNode, target: Seq<u8>, now: u64)
    requires
        target.len() == 20,
    ensures
        preferred(a, b, target, now) == comes_before(a, b, target, now),
{
    lemma_nearer(a.id@, b.id@, target);
    lemma_xor_swapped(a.id@, target);
    lemma_xor_swapped(b.id@, target);
}

/// A family of addresses is wanted: what is asked for, or that of the sender if
/// nothing is.
pub open spec fn family_wanted(w: Want, sender: SocketAddr, a: SocketAddr) -> bool {
    match w {
        Want::V4 => a is V4,
        Want::V6 => a is V6,
        Want::Both => true,
        Want::Neither => (a is V4) == (sender is V4),
    }
}

proof fn lemma_family_wanted(w: Want, sender: SocketAddr, a: SocketAddr)
    ensures
        family_wanted(w, sender, a) == wants(effective(w, sender), a),
{
}

/// The nodes of one family among some that are wanted.
spec fn kept(nodes: Seq<RoutingTableNode>, w: Want, v4: bool) -> Seq<(InfoHash, SocketAddr)>
    decreases nodes.len(),
{
    if nodes.len() == 0 {
        seq![]
    } else {
        let rest = kept(nodes.drop_last(), w, v4);
        let n = nodes.last();
        if (n.addr is V4) == v4 && wants(w, n.addr) {
            rest.push((n.id, n.addr))
        } else {
            rest
        }
    }
}

proof fn lemma_number_prefix(a: Seq<u8>, b: Seq<u8>, at: int, n: int)
    requires
        0 <= at,
        at + n <= a.len(),
    ensures
        number(a + b, at, n) == number(a, at, n),
    decreases n,
{
    if n > 0 {
        lemma_number_prefix(a, b, at, n - 1);
        assert((a + b)[at + n - 1] == a[at + n - 1]);
    }
}

proof fn lemma_appended_node(rest: Seq<u8>, id: Seq<u8>, a: SocketAddr)
    requires
        id.len() == 20,
    ensures
        compact_node(id, a).len() == if a is V4 {
            26int
        } else {
            38
        },
        (rest + compact_node(id, a)).subrange(rest.len() as int, rest.len() as int + 20) == id,
        writes_addr(rest + compact_node(id, a), rest.len() as int + 20, a),
{
    let d = rest + compact_node(id, a);
    let at = rest.len() as int + 20;
    lemma_byte_ranges();
    match a {
        SocketAddr::V4(v) => {
            lemma_be_round_trip(v.ip.bits as nat, 4);
            lemma_be_round_trip(v.port as nat, 2);
            assert(d.subrange(at, at + 4) =~= be_bytes(v.ip.bits as nat, 4));
            assert(d.subrange(at + 4, at + 6) =~= be_bytes(v.port as nat, 2));
            lemma_holds(d, at, v.ip.bits as nat, 4);
            lemma_holds(d, at + 4, v.port as nat, 2);
        },
        SocketAddr::V6(v) => {
            lemma_be_round_trip(v.ip.bits as nat, 16);
            lemma_be_round_trip(v.port as nat, 2);
            assert(d.subrange(at, at + 16) =~= be_bytes(v.ip.bits as nat, 16));
            assert(d.subrange(at + 16, at + 18) =~= be_bytes(v.port as nat, 2));
            lemma_holds(d, at, v.ip.bits as nat, 16);
            lemma_holds(d, at + 16, v.port as nat, 2);
        },
    }
    assert(d.subrange(rest.len() as int, at) =~= id);
}

proof fn lemma_kept_listed(nodes: Seq<RoutingTableNode>, w: Want, v4: bool)
    ensures
        lists_nodes(compact_list(nodes, w, v4), kept(nodes, w, v4), v4),
    decreases nodes.len(),
{
    if nodes.len() > 0 {
        let front = nodes.drop_last();
        lemma_kept_listed(front, w, v4);
        let n = nodes.last();
        let rest = compact_list(front, w, v4);
        let before = kept(front, w, v4);
        if (n.addr is V4) == v4 && wants(w, n.addr) {
            let one = compact_node(n.id@, n.addr);
            let data = compact_list(nodes, w, v4);
            let list = kept(nodes, w, v4);
            let size: int = if v4 {
                26
            } else {
                38
            };
            lemma_appended_node(rest, n.id@, n.addr);
            assert(data == rest + one);
            assert(list == before.push((n.id, n.addr)));
            assert(size * list.len() == size * before.len() + size) by (nonlinear_arith)
                requires
                    list.len() == before.len() + 1,
            ;
            assert forall|i: int| 0 <= i < list.len() implies {
                &&& ((#[trigger] list[i]).1 is V4) == v4
                &&& data.subrange(size * i, size * i + 20) == list[i].0@
                &&& writes_addr(data, size * i + 20, list[i].1)
            } by {
                if i < before.len() {
                    assert(list[i] == before[i]);
                    assert(size * i + size <= size * before.len()) by (nonlinear_arith)
                        requires
                            0 <= i < before.len(),
                            size > 0,
                    ;
                    assert(data.subrange(size * i, size * i + 20) =~= rest.subrange(
                        size * i,
                        size * i + 20,
                    ));
                    let at = size * i + 20;
                    if v4 {
                        lemma_number_prefix(rest, one, at, 4);
                        lemma_number_prefix(rest, one, at + 4, 2);
                    } else {
                        lemma_number_prefix(rest, one, at, 16);
                        lemma_number_prefix(rest, one, at + 16, 2);
                    }
                } else {
                    assert(size * i == rest.len());
                }
            }
        }
    }
}

proof fn lemma_kept_holds(nodes: Seq<RoutingTableNode>, w: Want, v4: bool)
    ensures
        kept(nodes, w, v4).len() <= nodes.len(),
        forall|i: int|
            0 <= i < kept(nodes, w, v4).len() ==> among(nodes, #[trigger] kept(nodes, w, v4)[i])
                && wants(w, kept(nodes, w, v4)[i].1),
        forall|k: int|
            0 <= k < nodes.len() && wants(w, (#[trigger] nodes[k]).addr) && (nodes[k].addr is V4)
                == v4 ==> kept(nodes, w, v4).contains((nodes[k].id, nodes[k].addr)),
    decreases nodes.len(),
{
    if nodes.len() > 0 {
        let front = nodes.drop_last();
        lemma_kept_holds(front, w, v4);
        let before = kept(front, w, v4);
        let all = kept(nodes, w, v4);
        let n = nodes.last();
        assert forall|i: int| 0 <= i < all.len() implies among(nodes, #[trigger] all[i]) && wants(
            w,
            all[i].1,
        ) by {
            if i < before.len() {
                assert(all[i] == before[i]);
                let k = choose|k: int|
                    0 <= k < front.len() && (#[trigger] front[k]).id == before[i].0 && front[k].addr
                        == before[i].1;
                assert(nodes[k] == front[k]);
            } else {
                assert(nodes[nodes.len() - 1] == n);
            }
        }
        assert forall|k: int|
            0 <= k < nodes.len() && wants(w, (#[trigger] nodes[k]).addr) && (nodes[k].addr is V4)
                == v4 implies all.contains((nodes[k].id, nodes[k].addr)) by {
            if k < front.len() {
                assert(front[k] == nodes[k]);
                assert(before.contains((nodes[k].id, nodes[k].addr)));
                let i = before.index_of((nodes[k].id, nodes[k].addr));
                assert(all[i] == before[i]);
            } else {
                assert(all[before.len() as int] == (n.id, n.addr));
            }
        }
    }
}

/// A list of an answer names nodes of a table that are wanted: at most eight;
/// whichever it names, it names all that are to be preferred to it; and of a
/// table of eight or fewer it names all.
pub open spec fn names_best(
    data: Seq<u8>,
    v4: bool,
    t: RoutingTable,
    target: Seq<u8>,
    w: Want,
    sender: SocketAddr,
    now: u64,
) -> bool {
    exists|list: Seq<(InfoHash, SocketAddr)>| #[trigger]
        lists_nodes(data, list, v4) && best_of(list, v4, t, target, w, sender, now)
}

/// A node with this id and address is among some.
pub open spec fn among(nodes: Seq<RoutingTableNode>, x: (InfoHash, SocketAddr)) -> bool {
    exists|k: int| 0 <= k < nodes.len() && (#[trigger] nodes[k]).id == x.0 && nodes[k].addr == x.1
}

/// A list holds the best nodes of a table of one family.
pub open spec fn best_of(
    list: Seq<(InfoHash, SocketAddr)>,
    v4: bool,
    t: RoutingTable,
    target: Seq<u8>,
    w: Want,
    sender: SocketAddr,
    now: u64,
) -> bool {
    let nodes = t.nodes();
    &&& list.len() <= 8
    &&& forall|i: int|
        0 <= i < list.len() ==> among(nodes, #[trigger] list[i]) && family_wanted(
            w,
            sender,
            list[i].1,
        )
    &&& forall|a: int, b: int|
        0 <= a < nodes.len() && 0 <= b < nodes.len() && family_wanted(
            w,
            sender,
            nodes[a].addr,
        ) && (nodes[a].addr is V4) == v4 && list.contains(((#[trigger] nodes[b]).id, nodes[b].addr))
            && preferred(#[trigger] nodes[a], nodes[b], target, now) ==> list.contains(
            (nodes[a].id, nodes[a].addr),
        )
    &&& nodes.len() <= 8 ==> forall|a: int|
        0 <= a < nodes.len() && family_wanted(w, sender, (#[trigger] nodes[a]).addr) && (
        nodes[a].addr is V4) == v4 ==> list.contains((nodes[a].id, nodes[a].addr))
}

proof fn lemma_found_in<T>(s: Seq<T>, t: Seq<T>, k: int) -> (i: int)
    requires
        s.to_multiset() == t.to_multiset(),
        0 <= k < t.len(),
    ensures
        0 <= i < s.len(),
        s[i] == t[k],
{
    broadcast use vstd::seq_lib::group_to_multiset_ensures;

    assert(t.contains(t[k]));
    assert(t.to_multiset().count(t[k]) > 0);
    assert(s.contains(t[k]));
    choose|i: int| 0 <= i < s.len() && s[i] == t[k]
}

proof fn lemma_best(
    t: RoutingTable,
    sorted: Seq<RoutingTableNode>,
    target: Seq<u8>,
    w: Want,
    sender: SocketAddr,
    now: u64,
    v4: bool,
)
    requires
        t.wf(),
        target.len() == 20,
        in_order_of_closeness(t.nodes(), sorted, target, now),
    ensures
        best_of(kept(at_most(sorted, 8), effective(w, sender), v4), v4, t, target, w, sender, now),
{
    let nodes = t.nodes();
    let top = at_most(sorted, 8);
    let e = effective(w, sender);
    let list = kept(top, e, v4);
    lemma_kept_holds(top, e, v4);
    law_ids_unique(t);
    assert(sorted.len() == nodes.len()) by {
        broadcast use vstd::seq_lib::group_to_multiset_ensures;

        assert(sorted.to_multiset().len() == nodes.to_multiset().len());
    }
    assert forall|i: int| 0 <= i < list.len() implies among(nodes, #[trigger] list[i])
        && family_wanted(w, sender, list[i].1) by {
        assert(among(top, list[i]));
        let j = choose|j: int|
            0 <= j < top.len() && (#[trigger] top[j]).id == list[i].0 && top[j].addr == list[i].1;
        assert(top[j] == sorted[j]);
        let k = lemma_found_in(nodes, sorted, j);
        lemma_family_wanted(w, sender, list[i].1);
        assert(nodes[k].id == list[i].0);
    }
    assert forall|a: int, b: int|
        0 <= a < nodes.len() && 0 <= b < nodes.len() && family_wanted(
            w,
            sender,
            nodes[a].addr,
        ) && (nodes[a].addr is V4) == v4 && list.contains(((#[trigger] nodes[b]).id, nodes[b].addr))
            && preferred(#[trigger] nodes[a], nodes[b], target, now) implies list.contains(
        (nodes[a].id, nodes[a].addr),
    ) by {
        let i = list.index_of((nodes[b].id, nodes[b].addr));
        assert(among(top, list[i]));
        let j = choose|j: int|
            0 <= j < top.len() && (#[trigger] top[j]).id == list[i].0 && top[j].addr == list[i].1;
        assert(top[j] == sorted[j]);
        let c = lemma_found_in(nodes, sorted, j);
        assert(nodes[c].id == nodes[b].id);
        lemma_same_id(nodes, c, b);
        assert(sorted[j] == nodes[b]);
        let p = lemma_found_in(sorted, nodes, a);
        lemma_preferred(nodes[a], nodes[b], target, now);
        lemma_family_wanted(w, sender, nodes[a].addr);
        if p >= j {
            if p > j {
                assert(!comes_before(sorted[p], sorted[j], target, now));
            } else {
                crate::bytes::lemma_lex_irreflexive(xor_bytes(target, nodes[a].id@));
            }
            assert(false);
        }
        assert(top[p] == nodes[a]);
    }
    if nodes.len() <= 8 {
        assert forall|a: int|
            0 <= a < nodes.len() && family_wanted(w, sender, (#[trigger] nodes[a]).addr) && (
            nodes[a].addr is V4) == v4 implies list.contains((nodes[a].id, nodes[a].addr)) by {
            let p = lemma_found_in(sorted, nodes, a);
            lemma_family_wanted(w, sender, nodes[a].addr);
            assert(top[p] == nodes[a]);
        }
    }
}

proof fn lemma_same_id(nodes: Seq<RoutingTableNode>, a: int, b: int)
    requires
        crate::dht::routing_table::bucket::ascending_ids(nodes),
        0 <= a < nodes.len(),
        0 <= b < nodes.len(),
        nodes[a].id == nodes[b].id,
    ensures
        a == b,
{
    crate::bytes::lemma_lex_irreflexive(nodes[a].id@);
    if a < b {
        assert(lex_less(nodes[a].id@, nodes[b].id@));
    } else if b < a {
        assert(lex_less(nodes[b].id@, nodes[a].id@));
    }
}

/// The lists of an answer name the best nodes of the table: those of the
/// families that are wanted, good ones before questionable, unknown and bad
/// ones, and among these the nearer to the target.
pub proof fn law_best_named(
    t: RoutingTable,
    target: Seq<u8>,
    w: Want,
    sender: SocketAddr,
    now: u64,
    nodes: Seq<u8>,
    nodes6: Seq<u8>,
)
    requires
        t.wf(),
        target.len() == 20,
        lists_closest(t, target, effective(w, sender), now, nodes, nodes6),
    ensures
        names_best(nodes, true, t, target, w, sender, now),
        names_best(nodes6, false, t, target, w, sender, now),
{
    let e = effective(w, sender);
    let sorted = choose|sorted: Seq<RoutingTableNode>|
        #![trigger at_most(sorted, 8)]
        in_order_of_closeness(t.nodes(), sorted, target, now) && nodes == compact_list(
            at_most(sorted, 8),
            e,
            true,
        ) && nodes6 == compact_list(at_most(sorted, 8), e, false);
    let top = at_most(sorted, 8);
    lemma_kept_listed(top, e, true);
    lemma_kept_listed(top, e, false);
    lemma_best(t, sorted, target, w, sender, now, true);
    lemma_best(t, sorted, target, w, sender, now, false);
    assert(lists_nodes(nodes, kept(top, e, true), true));
    assert(lists_nodes(nodes6, kept(top, e, false), false));
}

/// The peers of an answer are those of the torrent whose family is wanted.
pub proof fn law_peers_named(l: Seq<SocketAddr>, w: Want, sender: SocketAddr, a: SocketAddr)
    ensures
        wanted_addresses(l, effective(w, sender)).contains(a) <==> l.contains(a) && family_wanted(
            w,
            sender,
            a,
        ),
    decreases l.len(),
{
    let e = effective(w, sender);
    lemma_family_wanted(w, sender, a);
    if l.len() > 0 {
        let front = l.drop_last();
        law_peers_named(front, w, sender, a);
        let before = wanted_addresses(front, e);
        let all = wanted_addresses(l, e);
        if all.contains(a) {
            let i = all.index_of(a);
            if i < before.len() {
                assert(before[i] == a);
                let k = front.index_of(a);
                assert(l[k] == a);
            } else {
                assert(l[l.len() - 1] == a);
            }
        }
        if l.contains(a) && family_wanted(w, sender, a) {
            let k = l.index_of(a);
            if k < front.len() {
                assert(front[k] == a);
                let i = before.index_of(a);
                assert(all[i] == a);
            } else {
                assert(all[before.len() as int] == a);
            }
        }
    }
}

/// An address of four bytes could be seen from outside unless it is all zeros,
/// loopback, link-local or private; three nodes have to name it.
pub proof fn law_outside_address(ip: Ipv4Addr, w: u8, x: u8, y: u8, z: u8)
    requires
        ip.bits == ((w * 256 + x) * 256 + y) * 256 + z,
    ensures
        plausible(IpAddr::V4(ip)) <==> !({
            ||| w == 0 && x == 0 && y == 0 && z == 0
            ||| w == 127
            ||| w == 10
            ||| w == 172 && 16 <= x <= 31
            ||| w == 192 && x == 168
            ||| w == 169 && x == 254
        }),
        EXTERNAL_IP_VOTES == 3,
{
    let b = ip.bits as int;
    assert(b / 0x100_0000 == w);
    assert(b / 0x1_0000 == w * 256 + x);
    assert(b / 0x10_0000 == (w * 256 + x) / 16);
}

pub proof fn lemma_near(hash: Seq<u8>, id: Seq<u8>)
    requires
        hash.len() == 20,
        id.len() == 20,
    ensures
        !lex_less(max_distance(), xor_bytes(hash, id)) <==> hash[0] == id[0] && hash[1] == id[1],
{
    let m = max_distance();
    let x = xor_bytes(hash, id);
    let p = hash[0];
    let q = id[0];
    let r = hash[1];
    let s = id[1];
    assert((p ^ q == 0) <==> p == q) by (bit_vector);
    assert((r ^ s == 0) <==> r == s) by (bit_vector);
    assert(x[0] == p ^ q && x[1] == r ^ s);
    if lex_less(m, x) {
        let i = lemma_lex_witness(m, x);
        if i >= 2 {
            assert(m[i] == 255);
            assert(false);
        } else if i == 0 {
            assert(x[0] > 0);
        } else {
            assert(x[1] > 0);
        }
    }
    if x[0] != 0 {
        assert(m[0] != x[0]);
    } else if x[1] != 0 {
        reveal_with_fuel(lex_less, 2);
        assert(m.skip(1)[0] == m[1] && x.skip(1)[0] == x[1]);
        assert(m.skip(1).len() == 19 && x.skip(1).len() == 19);
    }
}

/// A peer is remembered for a torrent that has the first two bytes of this
/// node's id, if it shows a token that it was given, and if it is known or there
/// are fewer than a thousand; with the port that it names unless it asks for the
/// one that it speaks from.
pub proof fn law_announcements(
    s: PeerStore,
    id: Seq<u8>,
    hash: Seq<u8>,
    token: Seq<u8>,
    port: u16,
    implied: u8,
    addr: SocketAddr,
    now: u64,
)
    requires
        hash.len() == 20,
    ensures
        ({
            let r = s.announced(id, hash, token, port, implied, addr, now);
            let peer = match (addr, implied == 0) {
                (SocketAddr::V4(a), true) => SocketAddr::V4(
                    crate::net::SocketAddrV4 { ip: a.ip, port },
                ),
                (SocketAddr::V6(a), true) => SocketAddr::V6(
                    crate::net::SocketAddrV6 { ip: a.ip, port },
                ),
                (_, false) => addr,
            };
            let held = peers_of(stored(s.peers), hash);
            let known = exists|k: int| 0 <= k < held.len() && (#[trigger] held[k]).addr == peer;
            &&& r.2 <==> hash[0] == s.self_id@[0] && hash[1] == s.self_id@[1] && (exists|i: int|
                0 <= i < s.tokens@.len() && (#[trigger] s.tokens@[i]).token@ == token
                    && s.tokens@[i].addr == addr && s.tokens@[i].node_id@ == id) && (known
                || s.peers_len < 1000)
            &&& r.2 ==> peers_of(r.0, hash).contains(StoredPeer { addr: peer, time: now })
            &&& !r.2 ==> r.0 == stored(s.peers)
            &&& r.1 == s.peers_len + if r.2 && !known {
                1int
            } else {
                0int
            }
        }),
{
    lemma_near(hash, s.self_id@);
    let peer = if implied == 0 {
        addr.spec_with_port(port)
    } else {
        addr
    };
    let held = peers_of(stored(s.peers), hash);
    crate::dht::peer_store::lemma_position_of_addr(held, peer);
    let new = StoredPeer { addr: peer, time: now };
    if let Some(k) = position_of_addr(held, peer) {
        assert(held.update(k, new)[k] == new);
        assert(held[k].addr == peer);
    } else {
        assert(held.push(new)[held.len() as int] == new);
    }
}

/// The nodes to which others are sent are the good and the questionable ones.
pub proof fn law_usable(nodes: Seq<RoutingTableNode>, now: u64, a: SocketAddr)
    ensures
        usable_addresses(nodes, now).contains(a) <==> exists|k: int|
            0 <= k < nodes.len() && (#[trigger] nodes[k]).addr == a && (nodes[k].status_at(now)
                == NodeStatus::Good || nodes[k].status_at(now) == NodeStatus::Questionable),
    decreases nodes.len(),
{
    if nodes.len() > 0 {
        let front = nodes.drop_last();
        law_usable(front, now, a);
        let before = usable_addresses(front, now);
        let all = usable_addresses(nodes, now);
        let n = nodes.len() - 1;
        if all.contains(a) {
            let i = all.index_of(a);
            if i < before.len() {
                assert(before[i] == a);
                let k = choose|k: int|
                    0 <= k < front.len() && (#[trigger] front[k]).addr == a && (front[k].status_at(
                        now,
                    ) == NodeStatus::Good || front[k].status_at(now) == NodeStatus::Questionable);
                assert(nodes[k] == front[k]);
            } else {
                assert(nodes[n].addr == a);
            }
        }
        if exists|k: int|
            0 <= k < nodes.len() && (#[trigger] nodes[k]).addr == a && (nodes[k].status_at(now)
                == NodeStatus::Good || nodes[k].status_at(now) == NodeStatus::Questionable) {
            let k = choose|k: int|
                0 <= k < nodes.len() && (#[trigger] nodes[k]).addr == a && (nodes[k].status_at(now)
                    == NodeStatus::Good || nodes[k].status_at(now) == NodeStatus::Questionable);
            if k < n {
                assert(front[k] == nodes[k]);
                let i = before.index_of(a);
                assert(all[i] == a);
            } else {
                assert(all[before.len() as int] == a);
            }
        }
    }
}

} // verus!

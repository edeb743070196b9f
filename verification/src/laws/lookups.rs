//! What lookups do with answers.

use crate::dht::compact::{node_models, nodes_in, peer_of};
use crate::dht::lookup::{
    addr_position, by_use, heard_of, heard_of_all, id_position, just_heard, law_by_use,
    lemma_by_use_len, lemma_id_position, more_useful, named_nodes, responded, took_answer, with_change, Lookup,
    MaybeUsefulNode,
};
use crate::dht::protocol::Content;
use crate::laws::{lemma_nearer, lemma_writes_v4, lemma_writes_v6, nearer, writes_addr};
use crate::net::SocketAddr;
use crate::types::{lemma_array20_ext, InfoHash};
use vstd::prelude::*;

verus! {

/// A list of an answer holds nodes of one family, one after the other: the
/// twenty bytes of the id, then the address and the port.
pub open spec fn lists_nodes(
    data: Seq<u8>,
    nodes: Seq<(InfoHash, SocketAddr)>,
    v4: bool,
) -> bool {
    let size: int = if v4 {
        26
    } else {
        38
    };
    &&& data.len() == size * nodes.len()
    &&& forall|i: int|
        0 <= i < nodes.len() ==> {
            &&& ((#[trigger] nodes[i]).1 is V4) == v4
            &&& data.subrange(size * i, size * i + 20) == nodes[i].0@
            &&& writes_addr(data, size * i + 20, nodes[i].1)
        }
}

/// The answer names nodes in its lists: to a search for nodes, or to one for
/// peers.
pub open spec fn has_lists(c: Content, nodes: Seq<u8>, nodes6: Seq<u8>) -> bool {
    match c {
        Content::FoundNodes { nodes: a, nodes6: b, .. } => a == nodes && b == nodes6,
        Content::GotPeers { nodes: a, nodes6: b, .. } => a == nodes && b == nodes6,
        _ => false,
    }
}

/// No two of the nodes have the same id, and the lookup has heard of none.
pub open spec fn all_new(known: Seq<MaybeUsefulNode>, nodes: Seq<(InfoHash, SocketAddr)>) -> bool {
    &&& forall|i: int, j: int|
        0 <= i < j < nodes.len() ==> (#[trigger] nodes[i]).0@ != (#[trigger] nodes[j]).0@
    &&& forall|i: int, j: int|
        0 <= i < nodes.len() && 0 <= j < known.len() ==> (#[trigger] nodes[i]).0@ != (
        #[trigger] known[j]).id@
}

proof fn lemma_nodes_family(data: Seq<u8>, size: int, n: int, i: int)
    requires
        size == 26 || size == 38,
        0 <= i < n,
        size * n <= data.len(),
    ensures
        nodes_in(data, size, n).len() == n,
        (nodes_in(data, size, n)[i].1 is V4) == (size == 26),
        nodes_in(data, size, n)[i] == (
            data.subrange(size * i, size * i + 20),
            peer_of(data.subrange(size * i + 20, size * (i + 1)))->0,
        ),
    decreases n,
{
    lemma_nodes_len(data, size, n);
    lemma_nodes_len(data, size, n - 1);
    assert(size * (n - 1) + size == size * n) by (nonlinear_arith);
    assert(size * (i + 1) == size * i + size) by (nonlinear_arith);
    assert(size * i >= 0) by (nonlinear_arith)
        requires
            size > 0,
            i >= 0,
    ;
    if i == n - 1 {
        let s = data.subrange(size * (n - 1), size * n);
        assert(s.take(20) =~= data.subrange(size * i, size * i + 20));
        assert(s.skip(20) =~= data.subrange(size * i + 20, size * (i + 1)));
    } else {
        lemma_nodes_family(data, size, n - 1, i);
    }
}

proof fn lemma_nodes_len(data: Seq<u8>, size: int, n: int)
    requires
        0 <= n,
    ensures
        nodes_in(data, size, n).len() == n,
    decreases n,
{
    if n > 0 {
        lemma_nodes_len(data, size, n - 1);
    }
}

/// Reading a list gives the nodes that it holds.
proof fn lemma_list_read(data: Seq<u8>, nodes: Seq<(InfoHash, SocketAddr)>, v4: bool)
    requires
        lists_nodes(data, nodes, v4),
    ensures
        ({
            let size: int = if v4 {
                26
            } else {
                38
            };
            &&& data.len() as int / size == nodes.len()
            &&& nodes_in(data, size, nodes.len() as int) == node_models(nodes)
        }),
{
    let size: int = if v4 {
        26
    } else {
        38
    };
    let n = nodes.len() as int;
    assert(size * n / size == n) by (nonlinear_arith)
        requires
            size > 0,
            n >= 0,
    ;
    lemma_nodes_len(data, size, n);
    assert forall|i: int| 0 <= i < n implies #[trigger] nodes_in(data, size, n)[i] == node_models(
        nodes,
    )[i] by {
        lemma_nodes_family(data, size, n, i);
        assert(size * (i + 1) == size * i + size) by (nonlinear_arith);
        assert(size * i + size <= size * n) by (nonlinear_arith)
            requires
                i + 1 <= n,
                size > 0,
        ;
        assert(size * i >= 0) by (nonlinear_arith)
            requires
                size > 0,
                i >= 0,
        ;
        match nodes[i].1 {
            SocketAddr::V4(a) => {
                lemma_writes_v4(data, size * i + 20, a);
            },
            SocketAddr::V6(a) => {
                lemma_writes_v6(data, size * i + 20, a);
            },
        }
    }
    assert(nodes_in(data, size, n) =~= node_models(nodes));
}

pub proof fn lemma_addr_position(s: Seq<MaybeUsefulNode>, a: SocketAddr)
    ensures
        addr_position(s, a) matches Some(k) ==> 0 <= k < s.len() && s[k].addr == a,
    decreases s.len(),
{
    if s.len() > 0 {
        lemma_addr_position(s.drop_last(), a);
    }
}

/// What comes of hearing of a new node while there is room.
proof fn lemma_room(
    known: Seq<MaybeUsefulNode>,
    limit: int,
    target: Seq<u8>,
    id: InfoHash,
    addr: SocketAddr,
    now: u64,
)
    requires
        known.len() < limit,
        forall|j: int| 0 <= j < known.len() ==> (#[trigger] known[j]).id@ != id@,
    ensures
        ({
            let r = heard_of(known, limit, target, id, addr, now);
            &&& r.1
            &&& r.0.len() == known.len() + 1
            &&& forall|j: int|
                0 <= j < r.0.len() ==> (#[trigger] r.0[j]).id@ == id@ || exists|i: int|
                    0 <= i < known.len() && (#[trigger] known[i]) == r.0[j]
        }),
{
    broadcast use vstd::seq_lib::group_to_multiset_ensures;

    lemma_id_position(known, id@);
    let all = known.push(just_heard(id, addr, now));
    let sorted = by_use(all, target, now);
    lemma_by_use_len(all, target, now);
    law_by_use(all, target, now);
    assert(sorted.len() == all.len());
    assert forall|j: int| 0 <= j < sorted.len() implies (#[trigger] sorted[j]).id@ == id@
        || exists|i: int| 0 <= i < known.len() && (#[trigger] known[i]) == sorted[j] by {
        assert(sorted.to_multiset().count(sorted[j]) > 0);
        assert(all.contains(sorted[j]));
        let k = all.index_of(sorted[j]);
        if k < known.len() {
            assert(known[k] == sorted[j]);
        }
    }
}

proof fn lemma_all_asked(
    known: Seq<MaybeUsefulNode>,
    limit: int,
    target: Seq<u8>,
    nodes: Seq<(InfoHash, SocketAddr)>,
    v4: bool,
    now: u64,
    k: int,
)
    requires
        0 <= k <= nodes.len(),
        all_new(known, nodes),
        known.len() + nodes.len() <= limit,
        forall|i: int| 0 <= i < nodes.len() ==> ((#[trigger] nodes[i]).1 is V4) == v4,
    ensures
        ({
            let r = heard_of_all(known, limit, target, nodes.take(k), v4, now);
            &&& r.1 == nodes.take(k)
            &&& r.0.len() == known.len() + k
            &&& forall|j: int|
                0 <= j < r.0.len() ==> (exists|i: int|
                    0 <= i < known.len() && (#[trigger] known[i]).id@ == (#[trigger] r.0[j]).id@)
                    || (exists|i: int| 0 <= i < k && (#[trigger] nodes[i]).0@ == r.0[j].id@)
        }),
    decreases k,
{
    if k == 0 {
        assert(nodes.take(0) =~= seq![]);
        assert forall|j: int| 0 <= j < known.len() implies exists|i: int|
            0 <= i < known.len() && (#[trigger] known[i]).id@ == (#[trigger] known[j]).id@ by {}
    } else {
        lemma_all_asked(known, limit, target, nodes, v4, now, k - 1);
        let before = heard_of_all(known, limit, target, nodes.take(k - 1), v4, now).0;
        assert(nodes.take(k).drop_last() =~= nodes.take(k - 1));
        let (id, addr) = nodes[k - 1];
        assert forall|j: int| 0 <= j < before.len() implies (#[trigger] before[j]).id@ != id@ by {
            if exists|i: int| 0 <= i < known.len() && (#[trigger] known[i]).id@ == before[j].id@ {
                let i = choose|i: int|
                    0 <= i < known.len() && (#[trigger] known[i]).id@ == before[j].id@;
                assert(nodes[k - 1].0@ != known[i].id@);
            } else {
                let i = choose|i: int| 0 <= i < k - 1 && (#[trigger] nodes[i]).0@ == before[j].id@;
                assert(nodes[i].0@ != nodes[k - 1].0@);
            }
        }
        lemma_room(before, limit, target, id, addr, now);
        let r = heard_of_all(known, limit, target, nodes.take(k), v4, now);
        assert(r.1 =~= nodes.take(k));
        assert forall|j: int| 0 <= j < r.0.len() implies (exists|i: int|
            0 <= i < known.len() && (#[trigger] known[i]).id@ == (#[trigger] r.0[j]).id@) || (exists|
            i: int,
        |
            0 <= i < k && (#[trigger] nodes[i]).0@ == r.0[j].id@) by {
            if r.0[j].id@ == id@ {
                assert(nodes[k - 1].0@ == r.0[j].id@);
            } else {
                let m = choose|m: int| 0 <= m < before.len() && (#[trigger] before[m]) == r.0[j];
                assert(before[m].id@ == r.0[j].id@);
            }
        }
    }
}

/// Nodes of the other family are passed over.
proof fn lemma_passed_over(
    known: Seq<MaybeUsefulNode>,
    limit: int,
    target: Seq<u8>,
    a: Seq<(InfoHash, SocketAddr)>,
    b: Seq<(InfoHash, SocketAddr)>,
    v4: bool,
    now: u64,
)
    requires
        forall|i: int| 0 <= i < b.len() ==> ((#[trigger] b[i]).1 is V4) != v4,
    ensures
        heard_of_all(known, limit, target, a + b, v4, now) == heard_of_all(
            known,
            limit,
            target,
            a,
            v4,
            now,
        ),
    decreases b.len(),
{
    if b.len() == 0 {
        assert(a + b =~= a);
    } else {
        assert((a + b).drop_last() =~= a + b.drop_last());
        assert((a + b).last() == b.last());
        lemma_passed_over(known, limit, target, a, b.drop_last(), v4, now);
    }
}

proof fn lemma_passed_over_first(
    known: Seq<MaybeUsefulNode>,
    limit: int,
    target: Seq<u8>,
    a: Seq<(InfoHash, SocketAddr)>,
    b: Seq<(InfoHash, SocketAddr)>,
    v4: bool,
    now: u64,
)
    requires
        forall|i: int| 0 <= i < a.len() ==> ((#[trigger] a[i]).1 is V4) != v4,
    ensures
        heard_of_all(known, limit, target, a + b, v4, now) == heard_of_all(
            known,
            limit,
            target,
            b,
            v4,
            now,
        ),
    decreases b.len(),
{
    if b.len() == 0 {
        assert(a + b =~= seq![] + a);
        lemma_passed_over(known, limit, target, seq![], a, v4, now);
        assert(b =~= seq![]);
    } else {
        assert((a + b).drop_last() =~= a + b.drop_last());
        assert((a + b).last() == b.last());
        lemma_passed_over_first(known, limit, target, a, b.drop_last(), v4, now);
    }
}

proof fn lemma_same_nodes(a: Seq<(InfoHash, SocketAddr)>, b: Seq<(InfoHash, SocketAddr)>)
    requires
        node_models(a) == node_models(b),
    ensures
        a == b,
{
    assert(node_models(a).len() == a.len() && node_models(b).len() == b.len());
    assert forall|i: int| 0 <= i < a.len() implies a[i] == b[i] by {
        assert(node_models(a)[i] == node_models(b)[i]);
        lemma_array20_ext(a[i].0.0, b[i].0.0);
    }
    assert(a =~= b);
}

/// An answer to a search for nodes or for peers leads on: of an answer that
/// names new nodes in the list of the answering node's family, exactly those
/// nodes are asked next, in order, as long as the search is not too deep and
/// there is room for them.
pub proof fn law_named_nodes_asked(
    before: Lookup,
    c: Content,
    addr: SocketAddr,
    depth: usize,
    now: u64,
    after: Lookup,
    peers: Seq<SocketAddr>,
    asked: Seq<(InfoHash, SocketAddr)>,
    nodes: Seq<u8>,
    nodes6: Seq<u8>,
    named: Seq<(InfoHash, SocketAddr)>,
)
    requires
        took_answer(before, c, addr, depth, now, after, peers, asked),
        has_lists(c, nodes, nodes6),
        lists_nodes(
            if addr is V4 {
                nodes
            } else {
                nodes6
            },
            named,
            addr is V4,
        ),
        depth < before.max_depth,
        all_new(before.useful_nodes@, named),
        before.useful_nodes@.len() + named.len() <= before.useful_nodes_limit,
    ensures
        asked == named,
{
    let all = choose|all: Seq<(InfoHash, SocketAddr)>|
        #![trigger node_models(all)]
        node_models(all) == named_nodes(c) && (after.useful_nodes@, asked) == heard_of_all(
            with_change(
                before.useful_nodes@,
                addr,
                |n: MaybeUsefulNode| responded(n, c, now),
            ),
            before.useful_nodes_limit as int,
            before.info_hash@,
            all,
            addr is V4,
            now,
        );
    let four = nodes_in(nodes, 26, nodes.len() as int / 26);
    let six = nodes_in(nodes6, 38, nodes6.len() as int / 38);
    let n4 = nodes.len() as int / 26;
    let n6 = nodes6.len() as int / 38;
    lemma_nodes_len(nodes, 26, n4);
    lemma_nodes_len(nodes6, 38, n6);
    assert(node_models(all).len() == all.len());
    let a = all.take(n4);
    let b = all.skip(n4);
    assert(all =~= a + b);
    assert(node_models(a) =~= four) by {
        assert forall|i: int| 0 <= i < n4 implies node_models(a)[i] == four[i] by {
            assert(node_models(all)[i] == named_nodes(c)[i]);
        }
    }
    assert(node_models(b) =~= six) by {
        assert forall|i: int| 0 <= i < n6 implies node_models(b)[i] == six[i] by {
            assert(node_models(all)[n4 + i] == named_nodes(c)[n4 + i]);
        }
    }
    let known = with_change(
        before.useful_nodes@,
        addr,
        |n: MaybeUsefulNode| responded(n, c, now),
    );
    lemma_addr_position(before.useful_nodes@, addr);
    assert forall|i: int, j: int| 0 <= i < named.len() && 0 <= j < known.len() implies (
    #[trigger] named[i]).0@ != (#[trigger] known[j]).id@ by {
        assert(known[j].id == before.useful_nodes@[j].id);
    }
    let limit = before.useful_nodes_limit as int;
    let target = before.info_hash@;
    if addr is V4 {
        lemma_list_read(nodes, named, true);
        lemma_same_nodes(a, named);
        assert forall|i: int| 0 <= i < b.len() implies !((#[trigger] b[i]).1 is V4) by {
            lemma_nodes_family(nodes6, 38, n6, i);
            assert(node_models(b)[i] == six[i]);
        }
        lemma_passed_over(known, limit, target, a, b, true, now);
        lemma_all_asked(known, limit, target, named, true, now, named.len() as int);
    } else {
        lemma_list_read(nodes6, named, false);
        lemma_same_nodes(b, named);
        assert forall|i: int| 0 <= i < a.len() implies ((#[trigger] a[i]).1 is V4) by {
            lemma_nodes_family(nodes, 26, n4, i);
            assert(node_models(a)[i] == four[i]);
        }
        lemma_passed_over_first(known, limit, target, a, b, false, now);
        lemma_all_asked(known, limit, target, named, false, now, named.len() as int);
    }
    assert(named.take(named.len() as int) =~= named);
}

/// The peers that an answer names are all handed on; other answers name none.
pub proof fn law_named_peers(
    before: Lookup,
    c: Content,
    addr: SocketAddr,
    depth: usize,
    now: u64,
    after: Lookup,
    peers: Seq<SocketAddr>,
    asked: Seq<(InfoHash, SocketAddr)>,
)
    requires
        took_answer(before, c, addr, depth, now, after, peers, asked),
    ensures
        c is GotPeers ==> peers == c->GotPeers_values,
        !(c is GotPeers) ==> peers.len() == 0,
        depth >= before.max_depth ==> asked.len() == 0,
        !(c is GotPeers) && !(c is FoundNodes) ==> asked.len() == 0,
        after.info_hash == before.info_hash && after.max_depth == before.max_depth
            && after.useful_nodes_limit == before.useful_nodes_limit,
{
    if depth < before.max_depth && !(c is GotPeers) && !(c is FoundNodes) {
        let all = choose|all: Seq<(InfoHash, SocketAddr)>|
            #![trigger node_models(all)]
            node_models(all) == named_nodes(c) && (after.useful_nodes@, asked) == heard_of_all(
                with_change(
                    before.useful_nodes@,
                    addr,
                    |n: MaybeUsefulNode| responded(n, c, now),
                ),
                before.useful_nodes_limit as int,
                before.info_hash@,
                all,
                addr is V4,
                now,
            );
        assert(node_models(all).len() == all.len());
    }
}

/// A node that a full lookup hears of takes the place of one that is farther
/// from the target, if there is such a one among nodes that never answered;
/// else it is not asked.
pub proof fn law_nearest_kept(
    known: Seq<MaybeUsefulNode>,
    limit: int,
    target: Seq<u8>,
    id: InfoHash,
    addr: SocketAddr,
    now: u64,
)
    requires
        target.len() == 20,
        0 < known.len() == limit,
        forall|j: int|
            0 <= j < known.len() ==> (#[trigger] known[j]).id@ != id@ && known[j].last_response
                is None && !known[j].returned_peers,
    ensures
        ({
            let r = heard_of(known, limit, target, id, addr, now);
            &&& r.1 <==> exists|j: int|
                0 <= j < known.len() && nearer(id@, (#[trigger] known[j]).id@, target)
            &&& r.0.len() == limit
            &&& r.1 ==> exists|k: int|
                0 <= k < r.0.len() && (#[trigger] r.0[k]) == (MaybeUsefulNode {
                    id,
                    addr,
                    last_request: now,
                    last_response: None,
                    errors_in_a_row: 0,
                    returned_peers: false,
                })
        }),
{
    broadcast use vstd::seq_lib::group_to_multiset_ensures;

    lemma_id_position(known, id@);
    let new = just_heard(id, addr, now);
    let all = known.push(new);
    let sorted = by_use(all, target, now);
    lemma_by_use_len(all, target, now);
    law_by_use(all, target, now);
    let r = heard_of(known, limit, target, id, addr, now);
    let last = sorted.last();
    assert(all[known.len() as int] == new);
    assert(all.to_multiset().count(new) > 0);
    assert(sorted.contains(new));
    let k = sorted.index_of(new);
    assert(sorted.to_multiset().count(last) > 0);
    assert(all.contains(last));
    let m = all.index_of(last);
    assert forall|x: MaybeUsefulNode, y: MaybeUsefulNode|
        x.last_response is None && y.last_response is None && !x.returned_peers
            && !y.returned_peers implies #[trigger] more_useful(x, y, target, now) == nearer(
        x.id@,
        y.id@,
        target,
    ) by {
        lemma_nearer(x.id@, y.id@, target);
        crate::bytes::lemma_lex_irreflexive(crate::types::xor_bytes(x.id@, target));
    }
    if r.1 {
        assert(m < known.len());
        assert(k < sorted.len() - 1);
        assert(!more_useful(sorted[sorted.len() - 1], sorted[k], target, now));
        assert(!nearer(last.id@, id@, target));
        lemma_nearer(last.id@, id@, target);
        lemma_nearer(id@, last.id@, target);
        crate::bytes::lemma_lex_total(
            crate::types::xor_bytes(id@, target),
            crate::types::xor_bytes(last.id@, target),
        );
        if crate::types::xor_bytes(id@, target) == crate::types::xor_bytes(last.id@, target) {
            lemma_xor_unique(id@, last.id@, target);
        }
        assert(nearer(id@, known[m].id@, target));
        assert(r.0[k] == new);
    } else {
        assert(last.id@ == id@);
        if m < known.len() {
            assert(known[m].id@ != id@);
        }
        assert forall|j: int| 0 <= j < known.len() implies !nearer(
            id@,
            (#[trigger] known[j]).id@,
            target,
        ) by {
            assert(all[j] == known[j]);
            assert(all.to_multiset().count(known[j]) > 0);
            assert(sorted.contains(known[j]));
            let p = sorted.index_of(known[j]);
            if p == sorted.len() - 1 {
                assert(known[j].id@ == id@);
            }
            assert(!more_useful(sorted[sorted.len() - 1], sorted[p], target, now));
        }
    }
}

/// Ids with the same difference from a target are the same.
proof fn lemma_xor_unique(a: Seq<u8>, b: Seq<u8>, t: Seq<u8>)
    requires
        a.len() == 20,
        b.len() == 20,
        t.len() == 20,
        crate::types::xor_bytes(a, t) == crate::types::xor_bytes(b, t),
    ensures
        a == b,
{
    assert forall|i: int| 0 <= i < 20 implies a[i] == b[i] by {
        let x = a[i];
        let y = b[i];
        let z = t[i];
        assert(crate::types::xor_bytes(a, t)[i] == x ^ z);
        assert(crate::types::xor_bytes(b, t)[i] == y ^ z);
        assert(x ^ z == y ^ z ==> x == y) by (bit_vector);
    }
    assert(a =~= b);
}

/// Nodes that named peers go before nodes that only answered, and those before
/// nodes that never did: the last of a sorted list is none that is better than
/// another in this way.
pub proof fn law_helpful_kept(s: Seq<MaybeUsefulNode>, target: Seq<u8>, now: u64, i: int, j: int)
    requires
        0 <= i < j < s.len(),
    ensures
        ({
            let a = by_use(s, target, now)[i];
            let b = by_use(s, target, now)[j];
            &&& b.returned_peers ==> a.returned_peers
            &&& a.returned_peers == b.returned_peers && b.last_response is Some
                ==> a.last_response is Some
        }),
{
    lemma_by_use_len(s, target, now);
    law_by_use(s, target, now);
    assert(!more_useful(by_use(s, target, now)[j], by_use(s, target, now)[i], target, now));
}

} // verus!

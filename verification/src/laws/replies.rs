//! What a node of the DHT replies and asks.

use crate::dht::bep42::belongs;
use crate::dht::error::Error;
use crate::dht::lookup::{addr_position, took_answer, Lookup, MaybeUsefulNode};
use crate::dht::node::{
    answer_parts, query_sender, request_content, DhtNode, Incoming, Request, ResponseOrError,
};
use crate::dht::peer_store::{
    addresses, peers_of, stored, tokens_with, StoredToken, MAX_REMEMBERED_TOKENS,
};
use crate::dht::protocol::{Content, Message, Want};
use crate::dht::routing_table::bucket::{lemma_position, position_of_id};
use crate::dht::routing_table::node::{NodeStatus, RoutingTableNode};
use crate::dht::routing_table::table::law_ids_unique;
use crate::dht::routing_table::{InsertResult, RoutingTable};
use crate::laws::lookups::lemma_addr_position;
use crate::laws::nodes::{family_wanted, law_best_named, law_peers_named, lemma_near, names_best};
use crate::laws::tables::{bucket_for, law_node_offered};
use crate::net::SocketAddr;
use crate::types::InfoHash;
use vstd::prelude::*;

verus! {

/// A question for nodes is answered, under its own transaction, with the best
/// nodes of the table for the asker's family, and with the asker's address.
pub proof fn law_nodes_replied(
    node: DhtNode,
    query: Message,
    addr: SocketAddr,
    now: u64,
    reply: Message,
    then: DhtNode,
    target: Seq<u8>,
    want: Want,
)
    requires
        node.replies(query, addr, now, reply, then),
        then.wf(),
        query@.content matches Content::FindNode { target: t, want: w, .. } && t == target && w
            == want,
        target.len() == 20,
    ensures
        reply@.transaction == query@.transaction,
        reply@.content matches Content::FoundNodes { id, nodes, nodes6, ip } && {
            let table = match addr {
                SocketAddr::V4(_) => then.table_v4,
                SocketAddr::V6(_) => then.table_v6,
            };
            &&& id == node.id@
            &&& ip == Some(addr)
            &&& names_best(nodes, true, table, target, want, addr, now)
            &&& names_best(nodes6, false, table, target, want, addr, now)
        },
{
    match reply@.content {
        Content::FoundNodes { id, nodes, nodes6, ip } => {
            law_best_named(then.table(addr), target, want, addr, now, nodes, nodes6);
        },
        _ => {},
    }
}

/// A question for peers is answered with those peers of the torrent whose
/// family is wanted, with the best nodes, and with a token that is known from
/// then on for the asker.
pub proof fn law_peers_replied(
    node: DhtNode,
    query: Message,
    addr: SocketAddr,
    now: u64,
    reply: Message,
    then: DhtNode,
    sender: Seq<u8>,
    hash: Seq<u8>,
    want: Want,
    a: SocketAddr,
)
    requires
        node.replies(query, addr, now, reply, then),
        then.wf(),
        query@.content matches Content::GetPeers { id: s, info_hash: h, want: w } && s == sender
            && h == hash && w == want,
        hash.len() == 20,
    ensures
        reply@.transaction == query@.transaction,
        reply@.content matches Content::GotPeers { id, token, values, nodes, nodes6, ip } && {
            let table = match addr {
                SocketAddr::V4(_) => then.table_v4,
                SocketAddr::V6(_) => then.table_v6,
            };
            let held = peers_of(stored(node.peer_store.peers), hash);
            &&& id == node.id@
            &&& ip == Some(addr)
            &&& values.contains(a) <==> family_wanted(want, addr, a) && exists|k: int|
                0 <= k < held.len() && (#[trigger] held[k]).addr == a
            &&& names_best(nodes, true, table, hash, want, addr, now)
            &&& names_best(nodes6, false, table, hash, want, addr, now)
            &&& exists|i: int|
                0 <= i < then.peer_store.tokens@.len() && (
                #[trigger] then.peer_store.tokens@[i]).token@ == token
                    && then.peer_store.tokens@[i].addr == addr
                    && then.peer_store.tokens@[i].node_id@ == sender
        },
{
    match reply@.content {
        Content::GotPeers { id, token, values, nodes, nodes6, ip } => {
            law_best_named(then.table(addr), hash, want, addr, now, nodes, nodes6);
            let held = peers_of(stored(node.peer_store.peers), hash);
            let l = addresses(held);
            law_peers_named(l, want, addr, a);
            if l.contains(a) {
                let k = l.index_of(a);
                assert(held[k].addr == a);
            }
            if exists|k: int| 0 <= k < held.len() && (#[trigger] held[k]).addr == a {
                let k = choose|k: int| 0 <= k < held.len() && (#[trigger] held[k]).addr == a;
                assert(l[k] == a);
            }
            let t = choose|t: StoredToken|
                t.token@ == token && t.node_id@ == sender && t.addr == addr
                    && then.peer_store.tokens@ == #[trigger] tokens_with(
                    node.peer_store.tokens@,
                    t,
                );
            let all = then.peer_store.tokens@;
            let n = node.peer_store.tokens@.len() as int;
            if n + 1 > MAX_REMEMBERED_TOKENS {
                assert(all[n - 1] == node.peer_store.tokens@.push(t)[n]);
            } else {
                assert(all[n] == t);
            }
        },
        _ => {},
    }
}

/// A ping is answered with who answers and with the asker's address.
pub proof fn law_ping_replied(
    node: DhtNode,
    query: Message,
    addr: SocketAddr,
    now: u64,
    reply: Message,
    then: DhtNode,
)
    requires
        node.replies(query, addr, now, reply, then),
        query@.content is Ping,
    ensures
        reply@.transaction == query@.transaction,
        reply@.content == (Content::Pong { id: node.id@, ip: Some(addr) }),
{
}

/// Tokens are remembered in the order in which they were given, the last
/// thousand of them.
pub proof fn law_tokens_remembered(tokens: Seq<StoredToken>, new: StoredToken, i: int)
    requires
        tokens.len() <= 1000,
    ensures
        tokens_with(tokens, new).len() == if tokens.len() < 1000 {
            tokens.len() + 1
        } else {
            1000
        },
        tokens_with(tokens, new)[tokens_with(tokens, new).len() - 1] == new,
        0 <= i < tokens.len() && tokens.len() < 1000 ==> tokens_with(tokens, new)[i] == tokens[i],
        1 <= i < tokens.len() && tokens.len() == 1000 ==> tokens_with(tokens, new)[i - 1]
            == tokens[i],
{
}

/// A peer is announced to a node that has answered with a token, whose id has
/// the first two bytes of the torrent's and belongs to its address.
pub proof fn law_announced_to(
    hash: InfoHash,
    id: InfoHash,
    addr: SocketAddr,
    answer: Content,
    port: Option<u16>,
)
    ensures
        DhtNode::announces(hash, id, addr, answer, port) <==> port is Some && answer is GotPeers
            && hash@[0] == id@[0] && hash@[1] == id@[1] && belongs(id@, addr.spec_ip()),
{
    lemma_near(hash@, id@);
}

/// What is asked of a node: nodes and peers of the node's own family.
pub proof fn law_asked(target: InfoHash, id: Seq<u8>, addr: SocketAddr, a: SocketAddr)
    ensures
        request_content(Request::FindNode(target), id, addr) matches Content::FindNode {
            id: s,
            target: t,
            want,
        } && s == id && t == target@ && (family_wanted(want, addr, a) <==> (a is V4) == (
        addr is V4)),
        request_content(Request::GetPeers(target), id, addr) matches Content::GetPeers {
            id: s,
            info_hash: t,
            want,
        } && s == id && t == target@ && (family_wanted(want, addr, a) <==> (a is V4) == (
        addr is V4)),
        request_content(Request::Ping, id, addr) == (Content::Ping { id }),
{
}

/// A lookup asks no further than it may, and keeps the node that answered in
/// its place.
pub proof fn law_depth_reached(
    before: Lookup,
    c: Content,
    addr: SocketAddr,
    depth: usize,
    now: u64,
    after: Lookup,
    peers: Seq<SocketAddr>,
    asked: Seq<(InfoHash, SocketAddr)>,
)
    requires
        took_answer(before, c, addr, depth, now, after, peers, asked),
        depth >= before.max_depth,
    ensures
        asked.len() == 0,
        after.useful_nodes@.len() == before.useful_nodes@.len(),
        after.max_depth == before.max_depth,
{
    lemma_addr_position(before.useful_nodes@, addr);
}

proof fn lemma_first_addr(nodes: Seq<MaybeUsefulNode>, a: SocketAddr, k: int)
    requires
        0 <= k < nodes.len(),
        nodes[k].addr == a,
        forall|j: int| 0 <= j < k ==> (#[trigger] nodes[j]).addr != a,
    ensures
        addr_position(nodes, a) == Some(k),
    decreases nodes.len(),
{
    let front = nodes.drop_last();
    if k < nodes.len() - 1 {
        assert(front[k] == nodes[k]);
        assert forall|j: int| 0 <= j < k implies (#[trigger] front[j]).addr != a by {
            assert(front[j] == nodes[j]);
        }
        lemma_first_addr(front, a, k);
    } else {
        lemma_addr_position(front, a);
        if let Some(j) = addr_position(front, a) {
            assert(front[j] == nodes[j]);
        }
    }
}

/// A lookup that may ask no further still notes the answer at the node that
/// gave it, and leaves the others as they are.
pub proof fn law_answer_at_depth(
    before: Lookup,
    c: Content,
    addr: SocketAddr,
    depth: usize,
    now: u64,
    after: Lookup,
    peers: Seq<SocketAddr>,
    asked: Seq<(InfoHash, SocketAddr)>,
    k: int,
    j: int,
)
    requires
        took_answer(before, c, addr, depth, now, after, peers, asked),
        depth >= before.max_depth,
        0 <= k < before.useful_nodes@.len(),
        before.useful_nodes@[k].addr == addr,
        forall|i: int| 0 <= i < k ==> (#[trigger] before.useful_nodes@[i]).addr != addr,
        0 <= j < before.useful_nodes@.len(),
    ensures
        after.useful_nodes@[k].last_response == Some(now),
        after.useful_nodes@[k].errors_in_a_row == 0,
        after.useful_nodes@[k].id == before.useful_nodes@[k].id,
        c matches Content::GotPeers { values, .. } ==> after.useful_nodes@[k].returned_peers == (
        values.len() != 0) && peers == values,
        j != k ==> after.useful_nodes@[j] == before.useful_nodes@[j],
{
    lemma_first_addr(before.useful_nodes@, addr, k);
}

/// A node that answers is taken into the table for its family, if its bucket
/// there has room and does not know it; the other table stays as it is.
pub proof fn law_answering_taken(
    node: DhtNode,
    sender: InfoHash,
    ip: Option<SocketAddr>,
    addr: SocketAddr,
    now: u64,
    then: DhtNode,
)
    requires
        node.wf(),
        node.after_answer(Some(sender), ip, addr, now, then),
    ensures
        addr is V4 ==> then.table_v6 == node.table_v6 && (has_place(node.table_v4, sender@, now)
            ==> then.table_v4.nodes().contains(RoutingTableNode::fresh(sender, addr))),
        addr is V6 ==> then.table_v4 == node.table_v4 && (has_place(node.table_v6, sender@, now)
            ==> then.table_v6.nodes().contains(RoutingTableNode::fresh(sender, addr))),
{
    broadcast use vstd::seq_lib::group_to_multiset_ensures;

    let t = node.table(addr);
    let r = choose|r: InsertResult| #[trigger]
        t.after_offer(sender, addr, now, r, then.table(addr));
    law_node_offered(t, sender, addr, now, r, then.table(addr));
    let new = RoutingTableNode::fresh(sender, addr);
    if has_place(t, sender@, now) {
        assert(r is Added);
        assert(then.table(addr).nodes().to_multiset().count(new) > 0);
        assert(then.table(addr).nodes().contains(new));
    }
}

/// The bucket for an id has room, knows no node with it and has no bad one; and
/// the table is not full.
pub open spec fn has_place(t: RoutingTable, id: Seq<u8>, now: u64) -> bool {
    let b = bucket_for(t.buckets@, 0, id).0;
    &&& b.len() < 8
    &&& t.buckets.size < t.buckets.max_size
    &&& forall|k: int|
        0 <= k < b.len() ==> (#[trigger] b[k]).id@ != id && b[k].status_at(now) != NodeStatus::Bad
}

/// A known node that asks something is noted as having asked, in the table for
/// its family; no other node changes, nor does the other table.
pub proof fn law_asking_noted(
    node: DhtNode,
    sender: InfoHash,
    addr: SocketAddr,
    now: u64,
    then: DhtNode,
    k: int,
)
    requires
        node.wf(),
        node.after_query(sender, addr, now, then),
        0 <= k < node.table(addr).nodes().len(),
    ensures
        addr is V4 ==> then.table_v6 == node.table_v6,
        addr is V6 ==> then.table_v4 == node.table_v4,
        then.table(addr).nodes().len() == node.table(addr).nodes().len(),
        ({
            let x = node.table(addr).nodes()[k];
            let y = then.table(addr).nodes()[k];
            &&& x.id@ == sender@ ==> y == (RoutingTableNode { last_query: Some(now), ..x })
            &&& x.id@ != sender@ ==> y == x
        }),
{
    let nodes = node.table(addr).nodes();
    law_ids_unique(node.table(addr));
    lemma_position(nodes, sender@);
    if nodes[k].id@ == sender@ {
        if let Some(j) = position_of_id(nodes, sender@) {
            if j < k {
                crate::bytes::lemma_lex_irreflexive(sender@);
                assert(crate::bytes::lex_less(nodes[j].id@, nodes[k].id@));
            } else if k < j {
                crate::bytes::lemma_lex_irreflexive(sender@);
                assert(crate::bytes::lex_less(nodes[k].id@, nodes[j].id@));
            }
        }
    }
}

/// The id of the node that sent an answer.
pub open spec fn answers_as(c: Content, id: Seq<u8>) -> bool {
    match c {
        Content::Pong { id: i, .. } => i == id,
        Content::FoundNodes { id: i, .. } => i == id,
        Content::GotPeers { id: i, .. } => i == id,
        Content::Announced { id: i, .. } => i == id,
        _ => false,
    }
}

/// The id of the node that sent a question.
pub open spec fn asks_as(c: Content, id: Seq<u8>) -> bool {
    match c {
        Content::Ping { id: i } => i == id,
        Content::FindNode { id: i, .. } => i == id,
        Content::GetPeers { id: i, .. } => i == id,
        Content::Announce { id: i, .. } => i == id,
        _ => false,
    }
}

/// An answer goes, as it came, to the request whose number it carries in two
/// bytes, and an error with its code and text; one without such a number is
/// refused. Either way the table takes in who answered, if it has a place.
pub proof fn law_answer_handed_on(
    node: DhtNode,
    msg: Message,
    addr: SocketAddr,
    now: u64,
    then: DhtNode,
    r: Result<Incoming, Error>,
    h: InfoHash,
)
    requires
        node.wf(),
        node.handled(msg, addr, now, then, r),
        answers_as(msg@.content, h@) || msg@.content is Error,
    ensures
        msg@.transaction.len() != 2 ==> r == Err::<Incoming, Error>(Error::BadTransactionId),
        msg@.transaction.len() == 2 ==> (r matches Ok(Incoming::Answer { tid, answer }) && {
            &&& tid == msg@.transaction[0] * 256 + msg@.transaction[1]
            &&& match msg@.content {
                Content::Error { code, message } => answer matches ResponseOrError::Error(c, m)
                    && c == code && m@ == message,
                _ => answer == ResponseOrError::Response(msg),
            }
        }),
        msg@.content is Error ==> then.table_v4 == node.table_v4 && then.table_v6
            == node.table_v6,
        answers_as(msg@.content, h@) && addr is V4 && has_place(node.table_v4, h@, now)
            ==> knows(then.table_v4, h@, addr),
        answers_as(msg@.content, h@) && addr is V6 && has_place(node.table_v6, h@, now)
            ==> knows(then.table_v6, h@, addr),
{
    reveal_with_fuel(crate::bytes::be_value, 3);
    if answers_as(msg@.content, h@) {
        let parts = answer_parts(msg)->0;
        law_answering_taken(node, parts.0->0, parts.1, addr, now, then);
        let new = RoutingTableNode::fresh(parts.0->0, addr);
        if then.table(addr).nodes().contains(new) {
            let k = choose|k: int|
                0 <= k < then.table(addr).nodes().len() && then.table(addr).nodes()[k] == new;
            assert(then.table(addr).nodes()[k].id@ == h@);
        }
    }
}

/// A table knows a node with an id at an address.
pub open spec fn knows(t: RoutingTable, id: Seq<u8>, addr: SocketAddr) -> bool {
    exists|k: int|
        0 <= k < t.nodes().len() && (#[trigger] t.nodes()[k]).id@ == id && t.nodes()[k].addr
            == addr
}

/// A question gets a reply under its own number, and a known asker is noted.
pub proof fn law_question_replied(
    node: DhtNode,
    msg: Message,
    addr: SocketAddr,
    now: u64,
    then: DhtNode,
    r: Result<Incoming, Error>,
    id: Seq<u8>,
    k: int,
)
    requires
        node.wf(),
        node.handled(msg, addr, now, then, r),
        asks_as(msg@.content, id),
        0 <= k < node.table(addr).nodes().len(),
    ensures
        r matches Ok(Incoming::Reply(reply)) && reply@.transaction == msg@.transaction,
        node.table(addr).nodes()[k].id@ == id ==> then.table(addr).nodes()[k].last_query
            == Some(now),
        node.table(addr).nodes()[k].id@ != id ==> then.table(addr).nodes()[k]
            == node.table(addr).nodes()[k],
{
    law_asking_noted(node, query_sender(msg)->0, addr, now, then, k);
}

} // verus!

//! A node of the DHT: what it knows, and what it does with each message.

use crate::bytes::be_bytes;
use crate::dht::compact::{compact_node, push_compact_node};
use crate::dht::error::Error;
use crate::dht::limits::{no_allowances, PerIpRateLimiter, RateLimiter, DHT_QUERIES_PER_SECOND};
use crate::dht::peer_store::{addresses, peers_of, stored, tokens_with, PeerStore, StoredToken};
use crate::dht::protocol::{
    decode_transaction_id, encode_transaction_id, message_bytes, serialize, Content, Krpc,
    Message, Want,
};
use crate::dht::routing_table::bucket::position_of_id;
use crate::dht::routing_table::node::NodeEvent;
use crate::dht::routing_table::table::{at_most, in_order_of_closeness};
use crate::dht::routing_table::{InsertResult, RoutingTable, RoutingTableNode};
use crate::net::{IpAddr, SocketAddr};
use crate::types::InfoHash;
use vstd::prelude::*;

verus! {

/// How many nodes have to name an address before it is taken for this node's.
pub const EXTERNAL_IP_VOTES: usize = 3;

/// What one node asks another.
#[derive(Debug)]
pub enum Request {
    GetPeers(InfoHash),
    FindNode(InfoHash),
    Announce { info_hash: InfoHash, token: Vec<u8>, port: u16 },
    Ping,
}

/// What came back for a request.
#[derive(Debug)]
pub enum ResponseOrError {
    Response(Message),
    Error(i32, Vec<u8>),
}

/// What is to be done about a message.
#[derive(Debug)]
pub enum Incoming {
    /// It answers the request with this number, if that waits for an answer.
    Answer { tid: u16, answer: ResponseOrError },
    /// It is to be answered.
    Reply(Message),
}

/// A summary of a node.
#[derive(Debug)]
pub struct DhtStats {
    pub id: String,
    pub outstanding_requests: usize,
    pub routing_table_size: usize,
    pub listen_addr: String,
}

/// A node of the DHT.
pub struct DhtNode {
    pub id: InfoHash,
    pub next_transaction_id: u16,
    pub table_v4: RoutingTable,
    pub table_v6: RoutingTable,
    pub listen_addr: SocketAddr,
    pub peer_store: PeerStore,
    pub rate_limiter: RateLimiter,
    pub inbound_rate_limiter: RateLimiter,
    pub per_ip_limiter: PerIpRateLimiter,
    /// Which nodes have named which address as this node's.
    pub votes: Vec<(IpAddr, SocketAddr)>,
    pub external_ip: Option<IpAddr>,
}

/// How many nodes have named an address.
pub open spec fn vote_count(votes: Seq<(IpAddr, SocketAddr)>, ip: IpAddr) -> nat
    decreases votes.len(),
{
    if votes.len() == 0 {
        0
    } else {
        vote_count(votes.drop_last(), ip) + if votes.last().0 == ip {
            1nat
        } else {
            0nat
        }
    }
}

/// An address that could be seen from outside: not unspecified, loopback or
/// link-local; of an IPv4 address, not private; of an IPv6 address, not
/// unique-local or multicast.
pub open spec fn plausible(ip: IpAddr) -> bool {
    match ip {
        IpAddr::V4(a) => {
            &&& a.bits != 0
            &&& a.bits / 0x100_0000 != 127
            &&& a.bits / 0x100_0000 != 10
            &&& a.bits / 0x10_0000 != 0xac1
            &&& a.bits / 0x1_0000 != 0xc0a8
            &&& a.bits / 0x1_0000 != 0xa9fe
        },
        IpAddr::V6(a) => {
            &&& a.bits > 1
            &&& a.bits / 0x100_0000_0000_0000_0000_0000_0000_0000 != 0xff
            &&& a.bits / 0x200_0000_0000_0000_0000_0000_0000_0000 != 0x7e
            &&& a.bits / 0x1_0000_0000_0000_0000_0000_0000_0000 != 0xfe80
        },
    }
}

fn is_plausible(ip: IpAddr) -> (r: bool)
    ensures
        r == plausible(ip),
{
    match ip {
        IpAddr::V4(a) => {
            let b: u32 = a.bits;
            b != 0 && b / 0x100_0000 != 127 && b / 0x100_0000 != 10 && b / 0x10_0000 != 0xac1 && b
                / 0x1_0000 != 0xc0a8 && b / 0x1_0000 != 0xa9fe
        },
        IpAddr::V6(a) => {
            let b: u128 = a.bits;
            b > 1 && b / 0x100_0000_0000_0000_0000_0000_0000_0000 != 0xff && b
                / 0x200_0000_0000_0000_0000_0000_0000_0000 != 0x7e && b
                / 0x1_0000_0000_0000_0000_0000_0000_0000 != 0xfe80
        },
    }
}

/// The votes after a node has named an address; each node counts once.
pub open spec fn voted(
    votes: Seq<(IpAddr, SocketAddr)>,
    ip: IpAddr,
    voter: SocketAddr,
) -> Seq<(IpAddr, SocketAddr)> {
    if !plausible(ip) || votes.contains((ip, voter)) {
        votes
    } else {
        votes.push((ip, voter))
    }
}

/// This node's address after a node has named one: the first that enough nodes
/// have named.
pub open spec fn elected(
    votes: Seq<(IpAddr, SocketAddr)>,
    current: Option<IpAddr>,
    ip: IpAddr,
    voter: SocketAddr,
) -> Option<IpAddr> {
    if current is None && plausible(ip) && vote_count(voted(votes, ip, voter), ip)
        >= EXTERNAL_IP_VOTES {
        Some(ip)
    } else {
        current
    }
}

/// The families of addresses that are wanted.
pub open spec fn wants(w: Want, a: SocketAddr) -> bool {
    w == Want::Both || w == (if a is V4 {
        Want::V4
    } else {
        Want::V6
    })
}

/// What is wanted: what the message says, else the family of its sender.
pub open spec fn effective(w: Want, addr: SocketAddr) -> Want {
    if w == Want::Neither {
        if addr is V4 {
            Want::V4
        } else {
            Want::V6
        }
    } else {
        w
    }
}

/// The wanted addresses, in order.
pub open spec fn wanted_addresses(l: Seq<SocketAddr>, w: Want) -> Seq<SocketAddr>
    decreases l.len(),
{
    if l.len() == 0 {
        seq![]
    } else {
        let rest = wanted_addresses(l.drop_last(), w);
        if wants(w, l.last()) {
            rest.push(l.last())
        } else {
            rest
        }
    }
}

/// The compact form of the wanted nodes of one family.
pub open spec fn compact_list(nodes: Seq<RoutingTableNode>, w: Want, v4: bool) -> Seq<u8>
    decreases nodes.len(),
{
    if nodes.len() == 0 {
        seq![]
    } else {
        let rest = compact_list(nodes.drop_last(), w, v4);
        let n = nodes.last();
        if (n.addr is V4) == v4 && wants(w, n.addr) {
            rest + compact_node(n.id@, n.addr)
        } else {
            rest
        }
    }
}

/// The two lists hold the wanted ones of the eight nodes closest to a target.
pub open spec fn lists_closest(
    table: RoutingTable,
    target: Seq<u8>,
    w: Want,
    now: u64,
    nodes: Seq<u8>,
    nodes6: Seq<u8>,
) -> bool {
    exists|sorted: Seq<RoutingTableNode>|
        #![trigger at_most(sorted, 8)]
        in_order_of_closeness(table.nodes(), sorted, target, now) && nodes == compact_list(
            at_most(sorted, 8),
            w,
            true,
        ) && nodes6 == compact_list(at_most(sorted, 8), w, false)
}

/// The message that a request is sent as.
pub open spec fn request_content(r: Request, id: Seq<u8>, addr: SocketAddr) -> Content {
    match r {
        Request::Ping => Content::Ping { id },
        Request::FindNode(target) => Content::FindNode {
            id,
            target: target@,
            want: effective(Want::Neither, addr),
        },
        Request::GetPeers(info_hash) => Content::GetPeers {
            id,
            info_hash: info_hash@,
            want: effective(Want::Neither, addr),
        },
        Request::Announce { info_hash, token, port } => Content::Announce {
            id,
            info_hash: info_hash@,
            token: token@,
            port,
            implied_port: 0,
        },
    }
}

fn copy_bytes(b: &Vec<u8>) -> (r: Vec<u8>)
    ensures
        r@ == b@,
{
    vstd::slice::slice_to_vec(b.as_slice())
}

fn is_wanted(w: Want, a: SocketAddr) -> (r: bool)
    ensures
        r == wants(w, a),
{
    match (w, a) {
        (Want::Both, _) => true,
        (Want::V4, SocketAddr::V4(_)) => true,
        (Want::V6, SocketAddr::V6(_)) => true,
        _ => false,
    }
}

/// The compact forms of the wanted ones of the eight nodes closest to a target.
pub fn generate_compact_nodes(target: InfoHash, table: &RoutingTable, want: Want, now: u64) -> (r: (
    Vec<u8>,
    Vec<u8>,
))
    requires
        table.wf(),
    ensures
        lists_closest(*table, target@, want, now, r.0@, r.1@),
{
    let sorted: Vec<RoutingTableNode> = table.sorted_by_distance_from(target, now);
    let n: usize = if sorted.len() > 8 {
        8
    } else {
        sorted.len()
    };
    let ghost top = at_most(sorted@, 8);
    let mut nodes_v4: Vec<u8> = Vec::new();
    let mut nodes_v6: Vec<u8> = Vec::new();
    let mut i: usize = 0;
    assert(top.take(0) =~= seq![]);
    while i < n
        invariant
            i <= n <= sorted.len(),
            n == top.len(),
            top == sorted@.take(n as int),
            nodes_v4@ == compact_list(top.take(i as int), want, true),
            nodes_v6@ == compact_list(top.take(i as int), want, false),
        decreases n - i,
    {
        assert(top.take(i + 1).drop_last() =~= top.take(i as int));
        let node: RoutingTableNode = sorted[i];
        if is_wanted(want, node.addr) {
            match node.addr {
                SocketAddr::V4(_) => push_compact_node(&mut nodes_v4, &node.id, node.addr),
                SocketAddr::V6(_) => push_compact_node(&mut nodes_v6, &node.id, node.addr),
            }
        }
        i += 1;
    }
    assert(top.take(i as int) =~= top);
    (nodes_v4, nodes_v6)
}

/// The wanted addresses, in order.
fn filter_wanted(l: &Vec<SocketAddr>, w: Want) -> (r: Vec<SocketAddr>)
    ensures
        r@ == wanted_addresses(l@, w),
{
    let mut out: Vec<SocketAddr> = Vec::new();
    let mut i: usize = 0;
    assert(l@.take(0) =~= seq![]);
    assert(out@ =~= seq![]);
    while i < l.len()
        invariant
            i <= l.len(),
            out@ == wanted_addresses(l@.take(i as int), w),
        decreases l.len() - i,
    {
        assert(l@.take(i + 1).drop_last() =~= l@.take(i as int));
        if is_wanted(w, l[i]) {
            out.push(l[i]);
        }
        i += 1;
    }
    assert(l@.take(i as int) =~= l@);
    out
}

/// What an answer says of its sender and of this node's address; nothing for a
/// query.
pub open spec fn answer_parts(m: Message) -> Option<(Option<InfoHash>, Option<SocketAddr>)> {
    match m {
        Message::PingResponse { id, ip, .. } => Some((Some(id), ip)),
        Message::FindNodeResponse { id, ip, .. } => Some((Some(id), ip)),
        Message::GetPeersResponse { id, ip, .. } => Some((Some(id), ip)),
        Message::AnnouncePeerResponse { id, ip, .. } => Some((Some(id), ip)),
        Message::Error { .. } => Some((None, None)),
        _ => None,
    }
}

/// The sender of a query.
pub open spec fn query_sender(m: Message) -> Option<InfoHash> {
    match m {
        Message::PingRequest { id, .. } => Some(id),
        Message::FindNodeRequest { id, .. } => Some(id),
        Message::GetPeersRequest { id, .. } => Some(id),
        Message::AnnouncePeerRequest { id, .. } => Some(id),
        _ => None,
    }
}

/// What a request gets back.
pub open spec fn answer_is(m: Message, answer: ResponseOrError) -> bool {
    match m {
        Message::Error { code, message, .. } => answer == ResponseOrError::Error(code, message),
        _ => answer == ResponseOrError::Response(m),
    }
}

impl DhtNode {
    /// The tables and peers are in order, and no vote is counted twice.
    pub open spec fn wf(&self) -> bool {
        &&& self.table_v4.wf()
        &&& self.table_v6.wf()
        &&& self.peer_store.wf()
        &&& self.votes@.no_duplicates()
    }

    /// The table for the family of an address.
    pub open spec fn table(&self, addr: SocketAddr) -> RoutingTable {
        if addr is V4 {
            self.table_v4
        } else {
            self.table_v6
        }
    }

    /// The table for the other family.
    pub open spec fn other_table(&self, addr: SocketAddr) -> RoutingTable {
        if addr is V4 {
            self.table_v6
        } else {
            self.table_v4
        }
    }

    /// Nothing was sent or received yet.
    pub open spec fn is_idle(&self, listen_addr: SocketAddr, now: u64) -> bool {
        &&& self.listen_addr == listen_addr
        &&& self.next_transaction_id == 0
        &&& self.rate_limiter.is_full(DHT_QUERIES_PER_SECOND, now)
        &&& self.inbound_rate_limiter.is_full((2 * DHT_QUERIES_PER_SECOND) as usize, now)
        &&& self.per_ip_limiter@ == no_allowances()
        &&& self.votes@.len() == 0
        &&& self.external_ip is None
    }

    /// A node with the given tables and peers.
    pub fn new_internal(
        id: InfoHash,
        table_v4: Option<RoutingTable>,
        table_v6: Option<RoutingTable>,
        listen_addr: SocketAddr,
        peer_store: PeerStore,
        now: u64,
    ) -> (r: DhtNode)
        requires
            table_v4 matches Some(t) ==> t.wf(),
            table_v6 matches Some(t) ==> t.wf(),
            peer_store.wf(),
        ensures
            r.wf(),
            r.id == id,
            r.is_idle(listen_addr, now),
            match table_v4 {
                Some(t) => r.table_v4 == t,
                None => r.table_v4.is_fresh(id, now),
            },
            match table_v6 {
                Some(t) => r.table_v6 == t,
                None => r.table_v6.is_fresh(id, now),
            },
            r.peer_store == peer_store,
    {
        let votes: Vec<(IpAddr, SocketAddr)> = Vec::new();
        assert(votes@.no_duplicates());
        DhtNode {
            id,
            next_transaction_id: 0,
            table_v4: match table_v4 {
                Some(t) => t,
                None => RoutingTable::new(id, now),
            },
            table_v6: match table_v6 {
                Some(t) => t,
                None => RoutingTable::new(id, now),
            },
            listen_addr,
            peer_store,
            rate_limiter: RateLimiter::new(DHT_QUERIES_PER_SECOND, now),
            inbound_rate_limiter: RateLimiter::new(DHT_QUERIES_PER_SECOND * 2, now),
            per_ip_limiter: PerIpRateLimiter::new(),
            votes,
            external_ip: None,
        }
    }

    /// The bytes of a request to a node, under the next number.
    pub fn create_message(&mut self, request: &Request, addr: SocketAddr) -> (r: (u16, Vec<u8>))
        requires
            old(self).wf(),
        ensures
            final(self).wf(),
            *final(self) == (DhtNode {
                next_transaction_id: final(self).next_transaction_id,
                ..*old(self)
            }),
            r.0 == old(self).next_transaction_id,
            final(self).next_transaction_id == (old(self).next_transaction_id + 1) % 0x1_0000,
            r.1@ == message_bytes(
                (Krpc {
                    transaction: be_bytes(r.0 as nat, 2),
                    content: request_content(*request, old(self).id@, addr),
                }),
            ),
    {
        let tid: u16 = self.next_transaction_id;
        self.next_transaction_id = if tid == u16::MAX {
            0
        } else {
            tid + 1
        };
        let transaction_id: Vec<u8> = encode_transaction_id(tid);
        let want: Want = Want::for_addr(addr);
        let msg = match request {
            Request::Ping => Message::PingRequest { transaction_id, id: self.id },
            Request::FindNode(target) => Message::FindNodeRequest {
                transaction_id,
                id: self.id,
                target: *target,
                want,
            },
            Request::GetPeers(info_hash) => Message::GetPeersRequest {
                transaction_id,
                id: self.id,
                info_hash: *info_hash,
                want,
            },
            Request::Announce { info_hash, token, port } => Message::AnnouncePeerRequest {
                transaction_id,
                id: self.id,
                info_hash: *info_hash,
                token: copy_bytes(token),
                port: *port,
                implied_port: 0,
            },
        };
        (tid, serialize(&msg))
    }

    /// Counts that a node has named an address as this node's.
    pub fn note_external_ip(&mut self, claimed: IpAddr, voter: SocketAddr)
        requires
            old(self).wf(),
        ensures
            final(self).wf(),
            *final(self) == (DhtNode {
                votes: final(self).votes,
                external_ip: final(self).external_ip,
                ..*old(self)
            }),
            final(self).votes@ == voted(old(self).votes@, claimed, voter),
            final(self).external_ip == elected(
                old(self).votes@,
                old(self).external_ip,
                claimed,
                voter,
            ),
    {
        if !is_plausible(claimed) {
            return;
        }
        let ghost before = self.votes@;
        let mut known: bool = false;
        let mut i: usize = 0;
        while i < self.votes.len()
            invariant
                i <= self.votes.len(),
                self.votes@ == before,
                *self == *old(self),
                known == (exists|k: int|
                    0 <= k < i && #[trigger] self.votes@[k] == (claimed, voter)),
            decreases self.votes.len() - i,
        {
            let (ip, by) = self.votes[i];
            if ip == claimed && by == voter {
                assert(self.votes@[i as int] == (claimed, voter));
                known = true;
            }
            i += 1;
        }
        if !known {
            self.votes.push((claimed, voter));
        }
        let mut count: usize = 0;
        let mut j: usize = 0;
        assert(self.votes@.take(0) =~= seq![]);
        while j < self.votes.len()
            invariant
                j <= self.votes.len(),
                count <= j,
                count == vote_count(self.votes@.take(j as int), claimed),
            decreases self.votes.len() - j,
        {
            assert(self.votes@.take(j + 1).drop_last() =~= self.votes@.take(j as int));
            if self.votes[j].0 == claimed {
                count += 1;
            }
            j += 1;
        }
        assert(self.votes@.take(j as int) =~= self.votes@);
        if count >= EXTERNAL_IP_VOTES && self.external_ip.is_none() {
            self.external_ip = Some(claimed);
        }
    }

    /// This node's address as others see it.
    pub fn external_ip(&self) -> (r: Option<IpAddr>)
        ensures
            r == self.external_ip,
    {
        self.external_ip
    }

    /// The address that the node listens at.
    pub fn listen_addr(&self) -> (r: SocketAddr)
        ensures
            r == self.listen_addr,
    {
        self.listen_addr
    }

    /// A summary of the node.
    pub fn stats(&self, outstanding_requests: usize, listen_addr: String) -> (r: DhtStats)
        ensures
            vstd::utf8::encode_utf8(r.id@) == crate::outside::hex_bytes(self.id@),
            r.outstanding_requests == outstanding_requests,
            r.routing_table_size == self.table_v4.size,
            r.listen_addr == listen_addr,
    {
        DhtStats {
            id: self.id.to_hex(),
            outstanding_requests,
            routing_table_size: self.table_v4.len(),
            listen_addr,
        }
    }

    /// Offers a node to the table for its family.
    pub(crate) fn offer(&mut self, id: InfoHash, addr: SocketAddr, now: u64) -> (r: InsertResult)
        requires
            old(self).wf(),
        ensures
            final(self).wf(),
            *final(self) == (DhtNode {
                table_v4: final(self).table_v4,
                table_v6: final(self).table_v6,
                ..*old(self)
            }),
            old(self).table(addr).after_offer(id, addr, now, r, final(self).table(addr)),
            final(self).other_table(addr) == old(self).other_table(addr),
    {
        match addr {
            SocketAddr::V4(_) => self.table_v4.add_node(id, addr, now),
            SocketAddr::V6(_) => self.table_v6.add_node(id, addr, now),
        }
    }

    /// Records an event of a node in the table for its family.
    pub(crate) fn mark(&mut self, id: InfoHash, addr: SocketAddr, event: NodeEvent, now: u64) -> (r: bool)
        requires
            old(self).wf(),
        ensures
            final(self).wf(),
            *final(self) == (DhtNode {
                table_v4: final(self).table_v4,
                table_v6: final(self).table_v6,
                ..*old(self)
            }),
            old(self).table(addr).after_event(id@, event, now, final(self).table(addr)),
            final(self).other_table(addr) == old(self).other_table(addr),
            r == (position_of_id(old(self).table(addr).nodes(), id@) is Some),
    {
        match addr {
            SocketAddr::V4(_) => self.table_v4.buckets.update(&id, event, now),
            SocketAddr::V6(_) => self.table_v6.buckets.update(&id, event, now),
        }
    }

    /// Notes what an answer tells of its sender and of this node's address.
    fn note_answer(
        &mut self,
        id: Option<InfoHash>,
        ip: Option<SocketAddr>,
        addr: SocketAddr,
        now: u64,
    )
        requires
            old(self).wf(),
        ensures
            final(self).wf(),
            old(self).after_answer(id, ip, addr, now, *final(self)),
    {
        if let Some(sender) = id {
            let taken = self.offer(sender, addr, now);
            assert(old(self).table(addr).after_offer(sender, addr, now, taken, self.table(addr)));
        }
        let ghost offered = *self;
        if let Some(claimed) = ip {
            self.note_external_ip(claimed.ip(), addr);
        }
        assert(self.table(addr) == offered.table(addr));
    }

    /// The node after an answer: its sender was offered to the table, and what
    /// it says of this node's address was counted.
    pub open spec fn after_answer(
        self,
        id: Option<InfoHash>,
        ip: Option<SocketAddr>,
        addr: SocketAddr,
        now: u64,
        then: DhtNode,
    ) -> bool {
        &&& then == (DhtNode {
            table_v4: then.table_v4,
            table_v6: then.table_v6,
            votes: then.votes,
            external_ip: then.external_ip,
            ..self
        })
        &&& then.other_table(addr) == self.other_table(addr)
        &&& match id {
            Some(sender) => exists|r: InsertResult| #[trigger]
                self.table(addr).after_offer(sender, addr, now, r, then.table(addr)),
            None => then.table(addr) == self.table(addr),
        }
        &&& match ip {
            Some(claimed) => {
                &&& then.votes@ == voted(self.votes@, claimed.spec_ip(), addr)
                &&& then.external_ip == elected(
                    self.votes@,
                    self.external_ip,
                    claimed.spec_ip(),
                    addr,
                )
            },
            None => then.votes == self.votes && then.external_ip == self.external_ip,
        }
    }

    /// The node after a query: the sender's table has it recorded.
    pub open spec fn after_query(
        self,
        id: InfoHash,
        addr: SocketAddr,
        now: u64,
        then: DhtNode,
    ) -> bool {
        &&& then == (DhtNode {
            table_v4: then.table_v4,
            table_v6: then.table_v6,
            peer_store: then.peer_store,
            ..self
        })
        &&& then.other_table(addr) == self.other_table(addr)
        &&& self.table(addr).after_event(id@, NodeEvent::Query, now, then.table(addr))
    }

    /// The message is the reply to a query, and the peers are as it leaves
    /// them.
    pub open spec fn replies(
        self,
        query: Message,
        addr: SocketAddr,
        now: u64,
        reply: Message,
        then: DhtNode,
    ) -> bool {
        &&& reply@.transaction == query@.transaction
        &&& match query@.content {
            Content::Ping { .. } => {
                &&& reply@.content == (Content::Pong { id: self.id@, ip: Some(addr) })
                &&& then.peer_store == self.peer_store
            },
            Content::FindNode { target, want, .. } => {
                &&& reply@.content matches Content::FoundNodes { id, nodes, nodes6, ip }
                &&& id == self.id@
                &&& ip == Some(addr)
                &&& lists_closest(
                    then.table(addr),
                    target,
                    effective(want, addr),
                    now,
                    nodes,
                    nodes6,
                )
                &&& then.peer_store == self.peer_store
            },
            Content::GetPeers { id: sender, info_hash, want } => {
                &&& reply@.content matches Content::GotPeers { id, token, values, nodes, nodes6, ip }
                &&& id == self.id@
                &&& ip == Some(addr)
                &&& lists_closest(
                    then.table(addr),
                    info_hash,
                    effective(want, addr),
                    now,
                    nodes,
                    nodes6,
                )
                &&& values == wanted_addresses(
                    addresses(peers_of(stored(self.peer_store.peers), info_hash)),
                    effective(want, addr),
                )
                &&& then.peer_store.wf()
                &&& then.peer_store.self_id == self.peer_store.self_id
                &&& then.peer_store.peers == self.peer_store.peers
                &&& then.peer_store.peers_len == self.peer_store.peers_len
                &&& exists|t: StoredToken|
                    t.token@ == token && t.node_id@ == sender && t.addr == addr
                        && then.peer_store.tokens@ == #[trigger] tokens_with(
                        self.peer_store.tokens@,
                        t,
                    )
            },
            Content::Announce { id: sender, info_hash, token, port, implied_port } => {
                &&& reply@.content == (Content::Announced { id: self.id@, ip: Some(addr) })
                &&& then.peer_store.wf()
                &&& then.peer_store.self_id == self.peer_store.self_id
                &&& then.peer_store.tokens == self.peer_store.tokens
                &&& ({
                    let r = self.peer_store.announced(
                        sender,
                        info_hash,
                        token,
                        port,
                        implied_port,
                        addr,
                        now,
                    );
                    stored(then.peer_store.peers) == r.0 && then.peer_store.peers_len == r.1
                })
            },
            _ => false,
        }
    }

    /// A message was taken in: an answer tells of its sender, and goes to the
    /// request that it answers; a query gets a reply.
    pub open spec fn handled(
        self,
        msg: Message,
        addr: SocketAddr,
        now: u64,
        then: DhtNode,
        r: Result<Incoming, Error>,
    ) -> bool {
        match answer_parts(msg) {
            Some((id, ip)) => {
                &&& self.after_answer(id, ip, addr, now, then)
                &&& if msg@.transaction.len() == 2 {
                    r matches Ok(Incoming::Answer { tid, answer }) && tid
                        == crate::bytes::be_value(msg@.transaction) && answer_is(msg, answer)
                } else {
                    r == Err::<Incoming, Error>(Error::BadTransactionId)
                }
            },
            None => {
                &&& query_sender(msg) is Some
                &&& self.after_query(query_sender(msg)->0, addr, now, then)
                &&& r matches Ok(Incoming::Reply(reply)) && self.replies(
                    msg,
                    addr,
                    now,
                    reply,
                    then,
                )
            },
        }
    }

    /// Takes in a message from an address.
    pub fn handle_incoming(&mut self, msg: Message, addr: SocketAddr, now: u64) -> (r: Result<
        Incoming,
        Error,
    >)
        requires
            old(self).wf(),
        ensures
            final(self).wf(),
            old(self).handled(msg, addr, now, *final(self), r),
    {
        let (id, ip): (Option<InfoHash>, Option<SocketAddr>) = match &msg {
            Message::PingResponse { id, ip, .. } => (Some(*id), *ip),
            Message::FindNodeResponse { id, ip, .. } => (Some(*id), *ip),
            Message::GetPeersResponse { id, ip, .. } => (Some(*id), *ip),
            Message::AnnouncePeerResponse { id, ip, .. } => (Some(*id), *ip),
            Message::Error { .. } => (None, None),
            _ => {
                let reply = self.answer_query(&msg, addr, now);
                return Ok(Incoming::Reply(reply));
            },
        };
        self.note_answer(id, ip, addr, now);
        let tid: u16 = match decode_transaction_id(msg.transaction_id()) {
            Some(t) => t,
            None => {
                return Err(Error::BadTransactionId);
            },
        };
        match msg {
            Message::Error { code, message, .. } => Ok(
                Incoming::Answer { tid, answer: ResponseOrError::Error(code, message) },
            ),
            m => Ok(Incoming::Answer { tid, answer: ResponseOrError::Response(m) }),
        }
    }

    /// The reply to a query.
    fn answer_query(&mut self, msg: &Message, addr: SocketAddr, now: u64) -> (r: Message)
        requires
            old(self).wf(),
            query_sender(*msg) is Some,
        ensures
            final(self).wf(),
            old(self).after_query(query_sender(*msg)->0, addr, now, *final(self)),
            old(self).replies(*msg, addr, now, r, *final(self)),
    {
        let transaction_id: Vec<u8> = vstd::slice::slice_to_vec(msg.transaction_id());
        match msg {
            Message::PingRequest { id, .. } => {
                let _ = self.mark(*id, addr, NodeEvent::Query, now);
                Message::PingResponse { transaction_id, id: self.id, ip: Some(addr) }
            },
            Message::FindNodeRequest { id, target, want, .. } => {
                let _ = self.mark(*id, addr, NodeEvent::Query, now);
                let w: Want = if *want == Want::Neither {
                    Want::for_addr(addr)
                } else {
                    *want
                };
                let (nodes, nodes6) = self.closest(*target, addr, w, now);
                Message::FindNodeResponse {
                    transaction_id,
                    id: self.id,
                    nodes,
                    nodes6,
                    ip: Some(addr),
                }
            },
            Message::GetPeersRequest { id, info_hash, want, .. } => {
                let _ = self.mark(*id, addr, NodeEvent::Query, now);
                let w: Want = if *want == Want::Neither {
                    Want::for_addr(addr)
                } else {
                    *want
                };
                let (nodes, nodes6) = self.closest(*info_hash, addr, w, now);
                let known: Vec<SocketAddr> = self.peer_store.get_peers(*info_hash);
                let values: Vec<SocketAddr> = filter_wanted(&known, w);
                let token: [u8; 4] = self.peer_store.gen_token_for(*id, addr);
                proof {
                    let t = StoredToken { token, node_id: *id, addr };
                    assert(self.peer_store.tokens@ == tokens_with(
                        old(self).peer_store.tokens@,
                        t,
                    ));
                }
                Message::GetPeersResponse {
                    transaction_id,
                    id: self.id,
                    token: vstd::slice::slice_to_vec(token.as_slice()),
                    values,
                    nodes,
                    nodes6,
                    ip: Some(addr),
                }
            },
            Message::AnnouncePeerRequest { id, info_hash, token, port, implied_port, .. } => {
                let _ = self.mark(*id, addr, NodeEvent::Query, now);
                let _ = self.peer_store.store_peer(
                    *id,
                    *info_hash,
                    token.as_slice(),
                    *port,
                    *implied_port,
                    addr,
                    now,
                );
                Message::AnnouncePeerResponse { transaction_id, id: self.id, ip: Some(addr) }
            },
            _ => Message::PingResponse { transaction_id, id: self.id, ip: None },
        }
    }

    fn closest(&self, target: InfoHash, addr: SocketAddr, want: Want, now: u64) -> (r: (
        Vec<u8>,
        Vec<u8>,
    ))
        requires
            self.wf(),
        ensures
            lists_closest(self.table(addr), target@, want, now, r.0@, r.1@),
    {
        match addr {
            SocketAddr::V4(_) => generate_compact_nodes(target, &self.table_v4, want, now),
            SocketAddr::V6(_) => generate_compact_nodes(target, &self.table_v6, want, now),
        }
    }
}

/// The votes and this node's address after a number of claims, each an address
/// and the node that named it.
pub open spec fn after_claims(claims: Seq<(IpAddr, SocketAddr)>) -> (
    Seq<(IpAddr, SocketAddr)>,
    Option<IpAddr>,
)
    decreases claims.len(),
{
    if claims.len() == 0 {
        (seq![], None)
    } else {
        let (votes, current) = after_claims(claims.drop_last());
        let (ip, voter) = claims.last();
        (voted(votes, ip, voter), elected(votes, current, ip, voter))
    }
}

/// The nodes that have named an address.
pub open spec fn voters_of(claims: Seq<(IpAddr, SocketAddr)>, ip: IpAddr) -> Set<SocketAddr>
    decreases claims.len(),
{
    if claims.len() == 0 {
        Set::empty()
    } else if claims.last().0 == ip {
        voters_of(claims.drop_last(), ip).insert(claims.last().1)
    } else {
        voters_of(claims.drop_last(), ip)
    }
}

/// An address that could be seen from outside and that enough different nodes
/// have named.
pub open spec fn confirmed(claims: Seq<(IpAddr, SocketAddr)>, ip: IpAddr) -> bool {
    plausible(ip) && voters_of(claims, ip).len() >= EXTERNAL_IP_VOTES
}

/// The votes are the plausible claims, and count each node once.
proof fn lemma_votes(claims: Seq<(IpAddr, SocketAddr)>, ip: IpAddr)
    ensures
        voters_of(claims, ip).finite(),
        plausible(ip) ==> vote_count(after_claims(claims).0, ip) == voters_of(claims, ip).len(),
        plausible(ip) ==> forall|v: SocketAddr| #[trigger]
            voters_of(claims, ip).contains(v) <==> after_claims(claims).0.contains((ip, v)),
    decreases claims.len(),
{
    if claims.len() > 0 {
        let init = claims.drop_last();
        lemma_votes(init, ip);
        let votes = after_claims(init).0;
        let then = after_claims(claims).0;
        let (claimed, voter) = claims.last();
        if then.len() > votes.len() {
            assert(then == votes.push((claimed, voter)));
            assert(then.drop_last() =~= votes);
            assert forall|v: SocketAddr| then.contains((ip, v)) <==> votes.contains((ip, v)) || (
            claimed == ip && voter == v) by {
                if votes.contains((ip, v)) {
                    let k = votes.index_of((ip, v));
                    assert(then[k] == (ip, v));
                }
                assert(then[votes.len() as int] == (claimed, voter));
                if then.contains((ip, v)) {
                    let k = then.index_of((ip, v));
                    if k < votes.len() {
                        assert(votes[k] == (ip, v));
                    }
                }
            }
        } else {
            assert(then == votes);
            if claimed == ip && plausible(ip) {
                assert(voters_of(init, ip).contains(voter));
                assert(voters_of(claims, ip) =~= voters_of(init, ip));
            }
        }
    }
}

/// A node has no address of its own until enough different nodes have named
/// the same one, each counted once; the first address for which that holds is
/// taken.
pub proof fn law_first_confirmed(claims: Seq<(IpAddr, SocketAddr)>)
    ensures
        after_claims(claims).1 is None <==> forall|ip: IpAddr| !#[trigger] confirmed(claims, ip),
        after_claims(claims).1 matches Some(ip) ==> exists|n: int|
            0 < n <= claims.len() && confirmed(#[trigger] claims.take(n), ip) && forall|m: int, other: IpAddr|
                0 <= m < n ==> !#[trigger] confirmed(claims.take(m), other),
    decreases claims.len(),
{
    if claims.len() == 0 {
        assert forall|ip: IpAddr| !#[trigger] confirmed(claims, ip) by {
            assert(voters_of(claims, ip).len() == 0);
        }
    } else {
        let init = claims.drop_last();
        let last = claims.len() - 1;
        law_first_confirmed(init);
        let (claimed, voter) = claims.last();
        lemma_votes(claims, claimed);
        assert forall|other: IpAddr| confirmed(init, other) implies confirmed(claims, other) by {
            lemma_votes(init, other);
        }
        assert forall|other: IpAddr| other != claimed implies confirmed(claims, other) == confirmed(
            init,
            other,
        ) by {}
        assert(claims.take(last) =~= init);
        assert forall|m: int| 0 <= m <= last implies #[trigger] init.take(m) == claims.take(m) by {
            assert(init.take(m) =~= claims.take(m));
        }
        match after_claims(init).1 {
            Some(ip) => {
                let n = choose|n: int|
                    0 < n <= init.len() && confirmed(#[trigger] init.take(n), ip) && forall|
                        m: int,
                        other: IpAddr,
                    |
                        0 <= m < n ==> !#[trigger] confirmed(init.take(m), other);
                assert(init.take(n) == claims.take(n));
                assert forall|m: int, other: IpAddr| 0 <= m < n implies !#[trigger] confirmed(
                    claims.take(m),
                    other,
                ) by {
                    assert(init.take(m) == claims.take(m));
                }
                lemma_confirmed_stays(claims, n, ip);
            },
            None => {
                if after_claims(claims).1 is Some {
                    assert(claims.take(claims.len() as int) =~= claims);
                    assert(confirmed(claims.take(claims.len() as int), claimed));
                    assert forall|m: int, other: IpAddr|
                        0 <= m < claims.len() implies !#[trigger] confirmed(
                        claims.take(m),
                        other,
                    ) by {
                        if confirmed(claims.take(m), other) {
                            assert(init.take(m) == claims.take(m));
                            lemma_confirmed_stays(init, m, other);
                        }
                    }
                }
            },
        }
    }
}

/// An address that is confirmed stays so.
proof fn lemma_confirmed_stays(claims: Seq<(IpAddr, SocketAddr)>, n: int, ip: IpAddr)
    requires
        0 <= n <= claims.len(),
        confirmed(claims.take(n), ip),
    ensures
        confirmed(claims, ip),
    decreases claims.len() - n,
{
    if n < claims.len() {
        let next = claims.take(n + 1);
        assert(next.drop_last() =~= claims.take(n));
        lemma_votes(claims.take(n), ip);
        lemma_confirmed_stays(claims, n + 1, ip);
    } else {
        assert(claims.take(n) =~= claims);
    }
}

/// The address that was taken stays, whatever is claimed later.
pub proof fn law_address_stays(
    claims: Seq<(IpAddr, SocketAddr)>,
    later: Seq<(IpAddr, SocketAddr)>,
)
    requires
        after_claims(claims).1 is Some,
    ensures
        after_claims(claims + later).1 == after_claims(claims).1,
    decreases later.len(),
{
    if later.len() == 0 {
        assert(claims + later =~= claims);
    } else {
        assert((claims + later).drop_last() =~= claims + later.drop_last());
        law_address_stays(claims, later.drop_last());
    }
}

/// The first address that enough different nodes have named is the one that is
/// taken.
pub proof fn law_first_taken(claims: Seq<(IpAddr, SocketAddr)>, n: int, ip: IpAddr)
    requires
        0 < n <= claims.len(),
        confirmed(claims.take(n), ip),
        forall|other: IpAddr| !#[trigger] confirmed(claims.take(n - 1), other),
    ensures
        after_claims(claims).1 == Some(ip),
{
    let then = claims.take(n);
    assert(then.drop_last() =~= claims.take(n - 1));
    law_first_confirmed(claims.take(n - 1));
    lemma_votes(then, ip);
    assert(!confirmed(claims.take(n - 1), ip));
    law_address_stays(then, claims.skip(n));
    assert(then + claims.skip(n) =~= claims);
}

/// A claim of an address that could not be seen from outside changes nothing.
pub proof fn law_implausible_ignored(
    claims: Seq<(IpAddr, SocketAddr)>,
    ip: IpAddr,
    voter: SocketAddr,
)
    requires
        !plausible(ip),
    ensures
        after_claims(claims.push((ip, voter))) == after_claims(claims),
{
    assert(claims.push((ip, voter)).drop_last() =~= claims);
}

} // verus!

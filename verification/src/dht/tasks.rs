//! What a node decides in the tasks that it runs: taking packets, looking
//! nodes and peers up, and keeping its tables fresh.

use crate::bytes::lex_less;
use crate::dht::bep42::{belongs, validate_node_id};
use crate::dht::bits::agree;
use crate::dht::error::Error;
use crate::dht::limits::{allowed, plain};
use crate::dht::node::{DhtNode, Request};
use crate::dht::peer_store::{max_distance, no_peers, stored, PeerStore};
use crate::dht::persistence::{
    hash_of_hex, make_persistent_peer_store, readable, recalled, PersistedDht, PersistentDhtConfig,
};
use crate::dht::protocol::{
    deserialize, message_bytes, message_of, opt_message, Content, Krpc, Message,
};
use crate::dht::routing_table::node::{NodeEvent, INACTIVITY_TIMEOUT};
use crate::dht::routing_table::table::{at_most, in_order_of_closeness, BucketTreeIteratorItem};
use crate::dht::routing_table::tree::{leaf_places, node_ok, BucketTreeNode};
use crate::dht::routing_table::{InsertResult, NodeStatus, RoutingTable, RoutingTableNode};
use crate::net::SocketAddr;
use crate::outside::{random_u64, random_u8};
use crate::types::{array20, xor_bytes, InfoHash};
use vstd::prelude::*;

verus! {

/// The hosts that a new node asks first.
pub open spec fn bootstrap_hosts() -> Seq<Seq<char>> {
    seq![
        "dht.transmissionbt.com:6881"@,
        "dht.libtorrent.org:25401"@,
        "router.bittorrent.com:6881"@,
        "dht.aelitis.com:6881"@,
    ]
}

/// The hosts that a new node asks first.
pub fn dht_bootstrap() -> (r: [&'static str; 4])
    ensures
        r@.len() == 4,
        forall|i: int| 0 <= i < 4 ==> (#[trigger] r@[i])@ == bootstrap_hosts()[i],
{
    [
        "dht.transmissionbt.com:6881",
        "dht.libtorrent.org:25401",
        "router.bittorrent.com:6881",
        "dht.aelitis.com:6881",
    ]
}

/// The nodes whose status is not settled, in order.
pub open spec fn unsettled(nodes: Seq<RoutingTableNode>, now: u64) -> Seq<(InfoHash, SocketAddr)>
    decreases nodes.len(),
{
    if nodes.len() == 0 {
        seq![]
    } else {
        let rest = unsettled(nodes.drop_last(), now);
        let n = nodes.last();
        let s = n.status_at(now);
        if s == NodeStatus::Questionable || s == NodeStatus::Unknown {
            rest.push((n.id, n.addr))
        } else {
            rest
        }
    }
}

/// The nodes of one family, in order.
pub open spec fn of_family(nodes: Seq<RoutingTableNode>, v4: bool) -> Seq<(InfoHash, SocketAddr)>
    decreases nodes.len(),
{
    if nodes.len() == 0 {
        seq![]
    } else {
        let rest = of_family(nodes.drop_last(), v4);
        let n = nodes.last();
        if (n.addr is V4) == v4 {
            rest.push((n.id, n.addr))
        } else {
            rest
        }
    }
}

/// The places of the buckets that were not refreshed lately, in order.
pub open spec fn stale_places(data: Seq<BucketTreeNode>, places: Seq<usize>, now: u64) -> Seq<usize>
    decreases places.len(),
{
    if places.len() == 0 {
        seq![]
    } else {
        let rest = stale_places(data, places.drop_last(), now);
        if now - data[places.last() as int].data->Leaf_0.last_refreshed > INACTIVITY_TIMEOUT {
            rest.push(places.last())
        } else {
            rest
        }
    }
}

impl RoutingTable {
    /// The nodes that are to be pinged: those whose status is not settled.
    pub fn nodes_to_ping(&self, now: u64) -> (r: Vec<(InfoHash, SocketAddr)>)
        requires
            self.wf(),
        ensures
            r@ == unsettled(self.nodes(), now),
    {
        let nodes: Vec<RoutingTableNode> = self.iter_nodes();
        let mut out: Vec<(InfoHash, SocketAddr)> = Vec::new();
        let mut i: usize = 0;
        assert(nodes@.take(0) =~= seq![]);
        assert(out@ =~= seq![]);
        while i < nodes.len()
            invariant
                i <= nodes.len(),
                out@ == unsettled(nodes@.take(i as int), now),
            decreases nodes.len() - i,
        {
            assert(nodes@.take(i + 1).drop_last() =~= nodes@.take(i as int));
            let s: NodeStatus = nodes[i].status(now);
            if s == NodeStatus::Questionable || s == NodeStatus::Unknown {
                out.push((nodes[i].id, nodes[i].addr));
            }
            i += 1;
        }
        assert(nodes@.take(i as int) =~= nodes@);
        out
    }

    /// The first nodes of one family to ask for a target: at most eight, the
    /// closest first.
    pub fn get_peers_root(&self, target: InfoHash, v4: bool, now: u64) -> (r: Vec<
        (InfoHash, SocketAddr),
    >)
        requires
            self.wf(),
        ensures
            exists|sorted: Seq<RoutingTableNode>|
                #![trigger of_family(sorted, v4)]
                in_order_of_closeness(self.nodes(), sorted, target@, now) && r@ == at_most(
                    of_family(sorted, v4),
                    8,
                ),
    {
        let sorted: Vec<RoutingTableNode> = self.sorted_by_distance_from(target, now);
        let mut out: Vec<(InfoHash, SocketAddr)> = Vec::new();
        let mut i: usize = 0;
        assert(sorted@.take(0) =~= seq![]);
        assert(out@ =~= seq![]);
        while i < sorted.len()
            invariant
                i <= sorted.len(),
                out@ == at_most(of_family(sorted@.take(i as int), v4), 8),
            decreases sorted.len() - i,
        {
            assert(sorted@.take(i + 1).drop_last() =~= sorted@.take(i as int));
            let n: RoutingTableNode = sorted[i];
            if matches!(n.addr, SocketAddr::V4(_)) == v4 && out.len() < 8 {
                out.push((n.id, n.addr));
            }
            i += 1;
            assert(out@ =~= at_most(of_family(sorted@.take(i as int), v4), 8));
        }
        assert(sorted@.take(i as int) =~= sorted@);
        out
    }

    /// The addresses of the eight nodes closest to a target, whatever their
    /// status.
    pub fn nearest_addresses(&self, target: InfoHash, now: u64) -> (r: Vec<SocketAddr>)
        requires
            self.wf(),
        ensures
            exists|sorted: Seq<RoutingTableNode>|
                #![trigger at_most(sorted, 8)]
                in_order_of_closeness(self.nodes(), sorted, target@, now) && r@ == at_most(
                    sorted,
                    8,
                ).map_values(|n: RoutingTableNode| n.addr),
    {
        let sorted: Vec<RoutingTableNode> = self.sorted_by_distance_from(target, now);
        let ghost top = at_most(sorted@, 8);
        let mut out: Vec<SocketAddr> = Vec::new();
        let mut i: usize = 0;
        while i < sorted.len() && i < 8
            invariant
                i <= sorted.len(),
                i <= 8,
                out@.len() == i,
                forall|k: int| 0 <= k < i ==> #[trigger] out@[k] == sorted@[k].addr,
            decreases sorted.len() - i,
        {
            out.push(sorted[i].addr);
            i += 1;
        }
        assert(out@ =~= top.map_values(|n: RoutingTableNode| n.addr));
        out
    }

    /// A random id of each bucket that was not refreshed lately.
    pub fn stale_ids(&self, now: u64) -> (r: Vec<InfoHash>)
        requires
            self.wf(),
        ensures
            ({
                let data = self.buckets.data@;
                let stale = stale_places(data, leaf_places(data, 0), now);
                &&& r@.len() == stale.len()
                &&& forall|i: int|
                    0 <= i < r@.len() ==> agree(
                        (#[trigger] r@[i])@,
                        data[stale[i] as int].start@,
                        160 - data[stale[i] as int].bits,
                    )
            }),
    {
        let buckets: Vec<BucketTreeIteratorItem<'_>> = self.iter_buckets();
        let ghost data = self.buckets.data@;
        let ghost places = leaf_places(data, 0);
        proof {
            crate::dht::routing_table::table::lemma_places_are_leaves(data, 0);
        }
        let mut out: Vec<InfoHash> = Vec::new();
        let mut i: usize = 0;
        assert(places.take(0) =~= seq![]);
        while i < buckets.len()
            invariant
                self.wf(),
                data == self.buckets.data@,
                places == leaf_places(data, 0),
                buckets@.len() == places.len(),
                i <= buckets.len(),
                forall|k: int|
                    0 <= k < buckets@.len() ==> (#[trigger] buckets@[k]).of_place(
                        data[places[k] as int],
                    ),
                forall|k: int| 0 <= k < places.len() ==> (#[trigger] places[k]) < data.len(),
                out@.len() == stale_places(data, places.take(i as int), now).len(),
                forall|k: int|
                    0 <= k < out@.len() ==> agree(
                        (#[trigger] out@[k])@,
                        data[stale_places(data, places.take(i as int), now)[k] as int].start@,
                        160 - data[stale_places(data, places.take(i as int), now)[k] as int].bits,
                    ),
            decreases buckets.len() - i,
        {
            assert(places.take(i + 1).drop_last() =~= places.take(i as int));
            let b: &BucketTreeIteratorItem<'_> = &buckets[i];
            assert(b.of_place(data[places[i as int] as int]));
            assert(node_ok(data, places[i as int] as int));
            if now.saturating_sub(b.leaf.last_refreshed) > INACTIVITY_TIMEOUT {
                out.push(b.random_id());
            }
            i += 1;
        }
        assert(places.take(i as int) =~= places);
        out
    }
}

impl DhtNode {
    /// Takes a packet, unless it is empty, too many came in of late, or it is
    /// no message. `refill` is the number of tokens that came in for all
    /// packets since the last refill.
    pub fn accept_packet(&mut self, data: &[u8], addr: SocketAddr, refill: usize, now: u64) -> (r:
        Option<Message>)
        requires
            old(self).wf(),
        ensures
            final(self).wf(),
            *final(self) == (DhtNode {
                inbound_rate_limiter: final(self).inbound_rate_limiter,
                per_ip_limiter: final(self).per_ip_limiter,
                ..*old(self)
            }),
            data@.len() == 0 ==> r is None && *final(self) == *old(self),
            data@.len() > 0 ==> {
                let held = old(self).per_ip_limiter@.get(plain(addr.spec_ip()));
                let room = old(self).inbound_rate_limiter.refilled(refill) > 0;
                &&& final(self).inbound_rate_limiter == old(self).inbound_rate_limiter.asked(
                    refill,
                    now,
                )
                &&& final(self).per_ip_limiter@ == if room {
                    old(self).per_ip_limiter@.insert(
                        plain(addr.spec_ip()),
                        allowed(held, now).0,
                    )
                } else {
                    old(self).per_ip_limiter@
                }
                &&& opt_message(r) == if room && allowed(held, now).1 {
                    message_of(data@)
                } else {
                    None
                }
            },
    {
        if data.len() == 0 {
            return None;
        }
        if !self.inbound_rate_limiter.allow(refill, now) {
            return None;
        }
        if !self.per_ip_limiter.allow(addr.ip(), now) {
            return None;
        }
        deserialize(data)
    }

    /// Records that a node is asked in a lookup that fills the table.
    pub fn lookup_started(&mut self, id: InfoHash, addr: SocketAddr, now: u64)
        requires
            old(self).wf(),
        ensures
            final(self).wf(),
            *final(self) == (DhtNode {
                table_v4: final(self).table_v4,
                table_v6: final(self).table_v6,
                ..*old(self)
            }),
            final(self).other_table(addr) == old(self).other_table(addr),
            exists|r: InsertResult, between: RoutingTable|
                #![trigger old(self).table(addr).after_offer(id, addr, now, r, between)]
                old(self).table(addr).after_offer(id, addr, now, r, between) && if r is Ignored {
                    final(self).table(addr) == between
                } else {
                    between.after_event(id@, NodeEvent::Request, now, final(self).table(addr))
                },
    {
        let result = self.offer(id, addr, now);
        let ghost between = self.table(addr);
        assert(old(self).table(addr).after_offer(id, addr, now, result, between));
        match result {
            InsertResult::Ignored => {},
            _ => {
                let _ = self.mark(id, addr, NodeEvent::Request, now);
            },
        }
    }

    /// Records whether a node that was asked has answered.
    pub fn lookup_ended(&mut self, id: InfoHash, addr: SocketAddr, answered: bool, now: u64)
        requires
            old(self).wf(),
        ensures
            final(self).wf(),
            *final(self) == (DhtNode {
                table_v4: final(self).table_v4,
                table_v6: final(self).table_v6,
                ..*old(self)
            }),
            final(self).other_table(addr) == old(self).other_table(addr),
            old(self).table(addr).after_event(
                id@,
                if answered {
                    NodeEvent::Response
                } else {
                    NodeEvent::Failure
                },
                now,
                final(self).table(addr),
            ),
    {
        let event = if answered {
            NodeEvent::Response
        } else {
            NodeEvent::Failure
        };
        let _ = self.mark(id, addr, event, now);
    }

    /// A peer of a torrent is to be announced to a node: there is a port to
    /// announce, the node has given a token, it is close to the torrent, and
    /// its id belongs to its address.
    pub open spec fn announces(
        info_hash: InfoHash,
        node_id: InfoHash,
        addr: SocketAddr,
        answer: Content,
        port: Option<u16>,
    ) -> bool {
        &&& port is Some
        &&& answer is GotPeers
        &&& !lex_less(max_distance(), xor_bytes(info_hash@, node_id@))
        &&& belongs(node_id@, addr.spec_ip())
    }

    /// The announcement to a node that has answered, if one is to be sent.
    pub fn announce_to(
        &mut self,
        info_hash: InfoHash,
        node_id: InfoHash,
        addr: SocketAddr,
        answer: &Message,
        port: Option<u16>,
    ) -> (r: Option<(u16, Vec<u8>)>)
        requires
            old(self).wf(),
        ensures
            final(self).wf(),
            *final(self) == (DhtNode {
                next_transaction_id: final(self).next_transaction_id,
                ..*old(self)
            }),
            r is Some == Self::announces(info_hash, node_id, addr, answer@.content, port),
            r is None ==> *final(self) == *old(self),
            r matches Some((tid, data)) ==> {
                &&& tid == old(self).next_transaction_id
                &&& final(self).next_transaction_id == (tid + 1) % 0x1_0000
                &&& data@ == message_bytes(
                    (Krpc {
                        transaction: crate::bytes::be_bytes(tid as nat, 2),
                        content: Content::Announce {
                            id: old(self).id@,
                            info_hash: info_hash@,
                            token: answer@.content->GotPeers_token,
                            port: port->0,
                            implied_port: 0,
                        },
                    }),
                )
            },
    {
        let p: u16 = match port {
            Some(p) => p,
            None => {
                return None;
            },
        };
        let token: Vec<u8> = match answer {
            Message::GetPeersResponse { token, .. } => vstd::slice::slice_to_vec(token.as_slice()),
            _ => {
                return None;
            },
        };
        let far: InfoHash = crate::dht::peer_store::far_hash();
        if far.less(&info_hash.distance(&node_id)) {
            return None;
        }
        if !validate_node_id(&node_id.0, addr.ip()) {
            return None;
        }
        Some(self.create_message(&Request::Announce { info_hash, token, port: p }, addr))
    }
}

/// Makes nodes.
#[derive(Debug)]
pub struct DhtBuilder;

impl DhtBuilder {
    /// A node with the state that was kept on disk, or a new one with a random
    /// id.
    pub fn with_config(
        persisted: Option<PersistedDht>,
        listen_addr: SocketAddr,
        now: u64,
    ) -> (r: DhtNode)
        requires
            persisted matches Some(p) ==> p.table_v4.wf() && (p.table_v6 matches Some(t) ==> t.wf()),
        ensures
            r.wf(),
            r.is_idle(listen_addr, now),
            r.peer_store.self_id == r.id,
            r.peer_store.tokens@.len() == 0,
            match persisted {
                Some(p) => {
                    &&& hash_of_hex(p.node_id@) matches Some(h) ==> r.id@ == h
                    &&& r.table_v4 == p.table_v4
                    &&& match p.table_v6 {
                        Some(t) => r.table_v6 == t,
                        None => r.table_v6.is_fresh(r.id, now),
                    }
                    &&& (
                        stored(r.peer_store.peers),
                        r.peer_store.peers_len as int,
                    ) == recalled(readable(p.peers@), now)
                },
                None => {
                    &&& r.table_v4.is_fresh(r.id, now)
                    &&& r.table_v6.is_fresh(r.id, now)
                    &&& stored(r.peer_store.peers) == no_peers()
                    &&& r.peer_store.peers_len == 0
                },
            },
    {
        match persisted {
            Some(p) => {
                let id: InfoHash = match InfoHash::from_hex(p.node_id.as_str()) {
                    Some(h) => h,
                    None => random_hash(),
                };
                let store: PeerStore = make_persistent_peer_store(id, &p.peers, now);
                DhtNode::new_internal(id, Some(p.table_v4), p.table_v6, listen_addr, store, now)
            },
            None => {
                let id: InfoHash = random_hash();
                let store: PeerStore = PeerStore::new(id);
                DhtNode::new_internal(id, None, None, listen_addr, store, now)
            },
        }
    }
}

/// A random hash.
fn random_hash() -> InfoHash {
    let mut v: Vec<u8> = Vec::new();
    while v.len() < 20
        invariant
            v.len() <= 20,
        decreases 20 - v.len(),
    {
        v.push(random_u8());
    }
    InfoHash(array20(v.as_slice()))
}

impl PersistentDhtConfig {
    /// The configuration with a port.
    pub fn with_port(port: u16) -> (r: PersistentDhtConfig)
        ensures
            r.dump_interval is None,
            r.config_filename is None,
            r.port == Some(port),
            !r.ipv4_only,
    {
        PersistentDhtConfig {
            dump_interval: None,
            config_filename: None,
            port: Some(port),
            ipv4_only: false,
        }
    }

    /// How often the state is kept, in seconds: every minute unless told
    /// otherwise.
    pub fn interval(&self) -> (r: u64)
        ensures
            r == match self.dump_interval {
                Some(s) => s,
                None => 60,
            },
    {
        match self.dump_interval {
            Some(s) => s,
            None => 60,
        }
    }

    /// The port to listen at; any if none is given.
    pub fn requested_port(&self) -> (r: u16)
        ensures
            r == match self.port {
                Some(p) => p,
                None => 0,
            },
    {
        match self.port {
            Some(p) => p,
            None => 0,
        }
    }
}

/// Addresses by family: the IPv4 ones and the IPv6 ones, in order.
pub open spec fn family_addresses(addrs: Seq<SocketAddr>, v4: bool) -> Seq<SocketAddr>
    decreases addrs.len(),
{
    if addrs.len() == 0 {
        seq![]
    } else {
        let rest = family_addresses(addrs.drop_last(), v4);
        if (addrs.last() is V4) == v4 {
            rest.push(addrs.last())
        } else {
            rest
        }
    }
}

/// Addresses by family: the IPv4 ones and the IPv6 ones, in order.
pub fn split_families(addrs: &Vec<SocketAddr>) -> (r: (Vec<SocketAddr>, Vec<SocketAddr>))
    ensures
        r.0@ == family_addresses(addrs@, true),
        r.1@ == family_addresses(addrs@, false),
{
    let mut v4: Vec<SocketAddr> = Vec::new();
    let mut v6: Vec<SocketAddr> = Vec::new();
    let mut i: usize = 0;
    assert(addrs@.take(0) =~= seq![]);
    assert(v4@ =~= seq![]);
    assert(v6@ =~= seq![]);
    while i < addrs.len()
        invariant
            i <= addrs.len(),
            v4@ == family_addresses(addrs@.take(i as int), true),
            v6@ == family_addresses(addrs@.take(i as int), false),
        decreases addrs.len() - i,
    {
        assert(addrs@.take(i + 1).drop_last() =~= addrs@.take(i as int));
        match addrs[i] {
            SocketAddr::V4(_) => v4.push(addrs[i]),
            SocketAddr::V6(_) => v6.push(addrs[i]),
        }
        i += 1;
    }
    assert(addrs@.take(i as int) =~= addrs@);
    (v4, v6)
}

/// How far a new node is with asking the first hosts.
#[derive(Debug)]
pub struct Bootstrap {
    pub successes: usize,
    pub delay_secs: u64,
}

impl Bootstrap {
    pub open spec fn wf(&self) -> bool {
        1 <= self.delay_secs <= 60
    }

    /// No host was asked.
    pub fn new() -> (r: Bootstrap)
        ensures
            r.wf(),
            r.successes == 0,
            r.delay_secs == 1,
    {
        Bootstrap { successes: 0, delay_secs: 1 }
    }

    /// Goes on to another host.
    pub fn next_host(&mut self)
        requires
            old(self).wf(),
        ensures
            final(self).wf(),
            final(self).successes == old(self).successes,
            final(self).delay_secs == 1,
    {
        self.delay_secs = 1;
    }

    /// A host was asked.
    pub fn succeeded(&mut self)
        requires
            old(self).wf(),
        ensures
            final(self).wf(),
            final(self).successes == if old(self).successes == usize::MAX {
                usize::MAX as int
            } else {
                old(self).successes + 1
            },
            final(self).delay_secs == old(self).delay_secs,
    {
        if self.successes < usize::MAX {
            self.successes = self.successes + 1;
        }
    }

    /// A host could not be asked. How long to wait, in milliseconds, before it
    /// is asked again: twice as long each time, up to a minute, and a random
    /// part of a second. Nothing if another host was asked already.
    pub fn failed(&mut self) -> (r: Option<u64>)
        requires
            old(self).wf(),
        ensures
            final(self).wf(),
            r is Some == (old(self).successes == 0),
            r matches Some(ms) ==> 1000 * old(self).delay_secs <= ms < 1000 * old(self).delay_secs
                + 1000,
            final(self).successes == old(self).successes,
            final(self).delay_secs == if old(self).successes > 0 {
                old(self).delay_secs as int
            } else if 2 * old(self).delay_secs < 60 {
                2 * old(self).delay_secs
            } else {
                60
            },
    {
        let random: u64 = random_u64();
        self.failed_with(random)
    }

    /// As `failed`, with a given random number.
    pub fn failed_with(&mut self, random: u64) -> (r: Option<u64>)
        requires
            old(self).wf(),
        ensures
            final(self).wf(),
            r == if old(self).successes > 0 {
                None
            } else {
                Some((1000 * old(self).delay_secs + random % 1000) as u64)
            },
            final(self).successes == old(self).successes,
            final(self).delay_secs == if old(self).successes > 0 {
                old(self).delay_secs as int
            } else if 2 * old(self).delay_secs < 60 {
                2 * old(self).delay_secs
            } else {
                60
            },
    {
        if self.successes > 0 {
            return None;
        }
        let wait: u64 = self.delay_secs * 1000 + random % 1000;
        self.delay_secs = if self.delay_secs * 2 < 60 {
            self.delay_secs * 2
        } else {
            60
        };
        Some(wait)
    }

    /// What came of asking the hosts.
    pub fn result(&self) -> (r: Result<(), Error>)
        ensures
            self.successes > 0 ==> r == Ok::<(), Error>(()),
            self.successes == 0 ==> r == Err::<(), Error>(Error::BootstrapFailed),
    {
        if self.successes == 0 {
            return Err(Error::BootstrapFailed);
        }
        Ok(())
    }
}

} // verus!

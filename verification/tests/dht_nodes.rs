use retorrent::dht::bep42::{
    assemble_id, assemble_with, compute_crc, generate_node_id, is_local, validate_node_id,
};
use retorrent::dht::error::Error;
use retorrent::dht::limits::{PerIpRateLimiter, RateLimiter, PER_IP_BURST};
use retorrent::dht::lookup::{lookup_result, requery_delay, Lookup};
use retorrent::dht::node::{DhtNode, Incoming, Request, ResponseOrError};
use retorrent::dht::peer_store::PeerStore;
use retorrent::dht::persistence::{
    make_persistent_peer_store, persisted_peers, tmp_name, PersistedDht, PersistedPeerEntry,
    PersistentDhtConfig,
};
use retorrent::dht::protocol::{deserialize, serialize, Message, Want};
use retorrent::dht::routing_table::node::INACTIVITY_TIMEOUT;
use retorrent::dht::routing_table::table::{generate_random_id, with_prefix};
use retorrent::dht::routing_table::{BucketTree, InsertResult, NodeStatus, RoutingTable, RoutingTableNode};
use retorrent::dht::tasks::{dht_bootstrap, split_families, Bootstrap, DhtBuilder};
use retorrent::net::{IpAddr, Ipv4Addr, Ipv6Addr, SocketAddr, SocketAddrV4, SocketAddrV6};
use retorrent::types::InfoHash;

const SECOND: u64 = 1_000_000_000;
const IPV4_MASK: u32 = 0x030f_3fff;

fn test_id(byte: u8) -> InfoHash {
    InfoHash([byte; 20])
}

fn v4(a: u8, b: u8, c: u8, d: u8, port: u16) -> SocketAddr {
    SocketAddr::V4(SocketAddrV4::new(Ipv4Addr::new(a, b, c, d), port))
}

fn id_from(first: u8, last: u8) -> InfoHash {
    let mut b = [0u8; 20];
    b[0] = first;
    b[19] = last;
    InfoHash(b)
}

#[test]
fn example_ip_from_bep() {
    let ip = IpAddr::V4(Ipv4Addr::new(124, 31, 75, 21));
    let r = 1u8;
    let masked = (Ipv4Addr::new(124, 31, 75, 21).bits & IPV4_MASK) | ((r as u32) << 29);
    let crc = crc32c::crc32c(&masked.to_be_bytes());
    assert_eq!(compute_crc(ip, r), crc);
    let id = assemble_id(crc, r);
    assert!(validate_node_id(&id, ip), "generated ID should validate");
}

#[test]
fn loopback_always_valid() {
    let ip = IpAddr::V4(Ipv4Addr::new(127, 0, 0, 1));
    let mut id = [0u8; 20];
    for b in id.iter_mut() {
        *b = rand::random::<u8>();
    }
    assert!(validate_node_id(&id, ip));
}

#[test]
fn invalid_id_rejected() {
    let ip = IpAddr::V4(Ipv4Addr::new(8, 8, 8, 8));
    let id = generate_node_id(ip);
    let mut bad = id;
    bad[0] ^= 0xff;
    assert!(!validate_node_id(&bad, ip));
}

#[test]
fn ipv6_validation_roundtrip() {
    let ip = IpAddr::V6(Ipv6Addr { bits: 0x2001_0db8_0000_0000_0000_0000_0000_0001 });
    let id = generate_node_id(ip);
    assert!(validate_node_id(&id, ip));
}

#[test]
fn ipv4_validation_roundtrip() {
    let ip = IpAddr::V4(Ipv4Addr::new(8, 8, 8, 8));
    let id = generate_node_id(ip);
    assert!(validate_node_id(&id, ip));
}

#[test]
fn ids_are_assembled_from_their_parts() {
    let random: Vec<u8> = (100u8..117).collect();
    let id = assemble_with(0x1234_5678, 5, &random);
    assert_eq!(&id[..3], &[0x12, 0x34, 0x50 | (100 & 7)]);
    assert_eq!(&id[3..19], &random[1..]);
    assert_eq!(id[19], 5);
    let high = 0x2001_0db8_85a3_0000u64 & 0x0103_070f_1f3f_7fff | (3u64 << 61);
    let ip = IpAddr::V6(Ipv6Addr { bits: 0x2001_0db8_85a3_0000_0000_8a2e_0370_7334 });
    assert_eq!(compute_crc(ip, 3), crc32c::crc32c(&high.to_be_bytes()));
}

#[test]
fn local_addresses() {
    for (a, b) in [(127, 0), (10, 9), (172, 16), (172, 31), (192, 168), (169, 254)] {
        assert!(is_local(IpAddr::V4(Ipv4Addr::new(a, b, 1, 1))));
    }
    for (a, b) in [(172, 15), (172, 32), (192, 169), (8, 8), (11, 0)] {
        assert!(!is_local(IpAddr::V4(Ipv4Addr::new(a, b, 1, 1))));
    }
    assert!(is_local(IpAddr::V4(Ipv4Addr::new(0, 0, 0, 0))));
    assert!(is_local(IpAddr::V6(Ipv6Addr { bits: 1 })));
    assert!(is_local(IpAddr::V6(Ipv6Addr { bits: 0xfd00u128 << 112 })));
    assert!(!is_local(IpAddr::V6(Ipv6Addr { bits: 0xfe80u128 << 112 })));
}

#[test]
fn per_ip_limiter_enforces_burst() {
    let mut l = PerIpRateLimiter::new();
    let addr = v4(1, 2, 3, 4, 6881);
    let mut allowed = 0;
    for _ in 0..(PER_IP_BURST + 50) {
        if l.allow(addr.ip(), 7) {
            allowed += 1;
        }
    }
    assert!(allowed <= PER_IP_BURST, "should not exceed burst: got {}", allowed);
    assert!(allowed >= PER_IP_BURST, "should allow at least burst: got {}", allowed);
}

#[test]
fn per_ip_limiter_isolates_addresses() {
    let mut l = PerIpRateLimiter::new();
    let a = v4(1, 2, 3, 4, 6881);
    let b = v4(5, 6, 7, 8, 6881);
    for _ in 0..(PER_IP_BURST + 50) {
        l.allow(a.ip(), 7);
    }
    assert!(l.allow(b.ip(), 7));
}

#[test]
fn allowances_come_back_with_time() {
    let mut l = PerIpRateLimiter::new();
    let ip = v4(1, 2, 3, 4, 1).ip();
    for _ in 0..PER_IP_BURST {
        assert!(l.allow(ip, 0));
    }
    assert!(!l.allow(ip, SECOND - 1));
    let mut allowed = 0;
    for _ in 0..100 {
        if l.allow(ip, SECOND) {
            allowed += 1;
        }
    }
    assert_eq!(allowed, 50);
    l.gc(400 * SECOND);
    assert!(!l.allow(ip, SECOND));
}

#[test]
fn idle_addresses_are_forgotten() {
    let mut l = PerIpRateLimiter::new();
    let ip = v4(1, 2, 3, 4, 1).ip();
    assert!(l.allow(ip, 0));
    // Refilled, then one taken: not idle.
    assert!(l.allow(ip, 10 * SECOND));
    l.gc(1000 * SECOND);
    for _ in 0..99 {
        assert!(l.allow(ip, 10 * SECOND));
    }
    assert!(!l.allow(ip, 10 * SECOND));
}

#[test]
fn all_queries_together_are_limited() {
    let mut l = RateLimiter::new(30, 0);
    assert_eq!(l.capacity, 3);
    for _ in 0..3 {
        assert!(l.allow(0, 5));
    }
    assert!(!l.allow(0, 5));
    assert!(l.allow(2, 9));
    assert_eq!((l.tokens, l.last_refill), (1, 9));
    assert!(l.allow(100, 10));
    assert_eq!(l.tokens, 2);
}

#[test]
fn statuses_of_a_node() {
    let mut n = RoutingTableNode::new(test_id(1), v4(1, 1, 1, 1, 1));
    assert_eq!(n.status(0), NodeStatus::Unknown);
    n.mark_outgoing_request(10);
    n.mark_error();
    assert_eq!(n.status(10), NodeStatus::Unknown);
    n.mark_error();
    assert_eq!(n.status(10), NodeStatus::Bad);
    n.mark_response(20);
    assert_eq!(n.status(20), NodeStatus::Good);
    assert_eq!(n.status(21 + INACTIVITY_TIMEOUT), NodeStatus::Questionable);
    n.mark_last_query(30 + INACTIVITY_TIMEOUT);
    assert_eq!(n.status(31 + INACTIVITY_TIMEOUT), NodeStatus::Good);
}

fn make_table() -> RoutingTable {
    let mut t = RoutingTable::new(test_id(0xab), 0);
    for i in 0..20u8 {
        let node_id = InfoHash([i.wrapping_add(1); 20]);
        t.add_node(node_id, v4(10, 0, 0, i, 6881), 0);
    }
    t
}

#[test]
fn roundtrip_persisted_dht() {
    let node_id = test_id(0x42);
    let t = make_table();
    let peers = vec![(test_id(0x11), vec![v4(1, 2, 3, 4, 6881)])];
    let ps = PeerStore::new_with_persistence(node_id, &peers, 0);
    let size = t.buckets.size;
    let restored = BucketTree::restore(t.buckets.data, size, t.buckets.max_size).expect("a tree");
    let loaded = PersistedDht {
        node_id: node_id.to_hex(),
        listen_addr: "0.0.0.0:51413".to_string(),
        table_v4: RoutingTable::restore(test_id(0xab), restored),
        table_v6: Some(RoutingTable::new(node_id, 0)),
        peers: persisted_peers(&ps),
    };
    assert_eq!(loaded.node_id, node_id.to_hex());
    assert_eq!(loaded.listen_addr, "0.0.0.0:51413");
    // Bucket max is 8, so 20 nodes with same prefix bucket into <= 8.
    assert!(loaded.table_v4.len() > 0 && loaded.table_v4.len() <= 8);
    let ps2 = make_persistent_peer_store(node_id, &loaded.peers, 0);
    let got = ps2.get_peers(test_id(0x11));
    assert_eq!(got.len(), 1);
}

#[test]
fn entries_that_cannot_be_read_are_passed_over() {
    let entries = vec![
        PersistedPeerEntry { info_hash: "zz".to_string(), addrs: vec![v4(1, 1, 1, 1, 1)] },
        PersistedPeerEntry { info_hash: test_id(2).to_hex(), addrs: vec![v4(1, 1, 1, 1, 2)] },
    ];
    let ps = make_persistent_peer_store(test_id(1), &entries, 5);
    assert_eq!(ps.peers_len, 1);
    assert_eq!(ps.get_peers(test_id(2)), vec![v4(1, 1, 1, 1, 2)]);
    assert_eq!(tmp_name(Some("dht.json"), 77), "dht.json.tmp.77");
    assert_eq!(tmp_name(None, 8), "dht.json.tmp.8");
}

#[test]
fn full_buckets_split_around_the_own_id() {
    let mut t = RoutingTable::new(id_from(0, 0), 0);
    for i in 1..=8u8 {
        assert!(matches!(t.add_node(id_from(i, 0), v4(1, 1, 1, i, 1), 0), InsertResult::Added));
    }
    assert_eq!(t.iter_buckets().len(), 1);
    assert!(matches!(t.add_node(id_from(0xf0, 0), v4(1, 1, 1, 9, 1), 0), InsertResult::Added));
    assert_eq!(t.iter_buckets().len(), 2);
    assert!(matches!(
        t.add_node(id_from(3, 0), v4(9, 9, 9, 9, 1), 0),
        InsertResult::WasExisting
    ));
    let ids: Vec<u8> = t.iter_nodes().iter().map(|n| n.id.0[0]).collect();
    assert_eq!(ids, vec![1, 2, 3, 4, 5, 6, 7, 8, 0xf0]);
    assert_eq!(t.len(), 9);
}

#[test]
fn far_buckets_stay_full() {
    let mut t = RoutingTable::new(id_from(0, 0), 0);
    for i in 0..8u8 {
        t.add_node(id_from(0x80 + i, 0), v4(1, 1, 1, i, 1), 0);
    }
    assert!(matches!(t.add_node(id_from(0x90, 0), v4(1, 1, 2, 1, 1), 0), InsertResult::Ignored));
    let first = id_from(0x80, 0);
    t.mark_outgoing_request(&first, 1);
    t.mark_error(&first);
    t.mark_error(&first);
    match t.add_node(id_from(0x90, 0), v4(1, 1, 2, 1, 1), 2) {
        InsertResult::ReplacedBad(n) => assert_eq!(n.id, first),
        _ => panic!("wrong result"),
    }
    assert_eq!(t.iter_nodes().len(), 8);
}

#[test]
fn closest_nodes_are_chosen() {
    let mut t = RoutingTable::new(id_from(0, 0), 0);
    for i in 1..=4u8 {
        t.add_node(id_from(i, 0), v4(1, 1, 1, i, 1), 0);
    }
    for i in [1u8, 3, 4] {
        assert!(t.mark_response(&id_from(i, 0), 5));
    }
    assert!(!t.mark_response(&id_from(9, 9), 5));
    // Node 2 is unknown: it is sorted last and not offered.
    let sorted: Vec<u8> =
        t.sorted_by_distance_from(id_from(3, 0), 6).iter().map(|n| n.id.0[0]).collect();
    assert_eq!(sorted, vec![3, 1, 4, 2]);
    assert_eq!(
        t.closest_nodes(id_from(3, 0), 2, 6),
        vec![v4(1, 1, 1, 3, 1), v4(1, 1, 1, 1, 1)]
    );
    assert_eq!(t.closest_nodes(id_from(3, 0), 9, 6).len(), 3);
    assert_eq!(t.nodes_to_ping(6).len(), 1);
    assert_eq!(t.nearest_addresses(id_from(2, 0), 6).len(), 4);
    assert_eq!(t.get_peers_root(id_from(2, 0), true, 6).len(), 4);
    assert_eq!(t.get_peers_root(id_from(2, 0), false, 6).len(), 0);
}

#[test]
fn stale_buckets_get_random_ids() {
    let mut t = RoutingTable::new(id_from(0, 0), 0);
    assert_eq!(t.stale_ids(INACTIVITY_TIMEOUT).len(), 0);
    assert_eq!(t.stale_ids(INACTIVITY_TIMEOUT + 1).len(), 1);
    t.add_node(id_from(1, 0), v4(1, 1, 1, 1, 1), 50);
    assert_eq!(t.stale_ids(INACTIVITY_TIMEOUT + 50).len(), 0);
    let start = test_id(0xab);
    let id = generate_random_id(&start, 100);
    assert_eq!(&id.0[..7], &start.0[..7]);
    assert_eq!(id.0[7] & 0xf0, 0xa0);
    let p = with_prefix(test_id(0), &test_id(0xff), 152);
    assert_eq!(p.0[0], 0xff);
    assert_eq!(p.0[1], 0);
}

#[test]
fn malformed_trees_are_refused() {
    let t = make_table();
    let size = t.buckets.size;
    let mut data = t.buckets.data;
    data[0].bits = 159;
    assert!(BucketTree::restore(data, size, 512).is_none());
    let t = make_table();
    assert!(BucketTree::restore(t.buckets.data, 3, 512).is_none());
    assert!(BucketTree::restore(Vec::new(), 0, 512).is_none());
}

#[test]
fn announced_peers_need_their_token() {
    let mut s = PeerStore::new(test_id(7));
    let node = test_id(9);
    let addr = v4(1, 2, 3, 4, 1000);
    let near = test_id(7);
    let token = s.gen_token_for(node, addr);
    assert!(!s.store_peer(node, near, b"none", 5, 0, addr, 1));
    assert!(!s.store_peer(test_id(8), near, &token, 5, 0, addr, 1));
    assert!(!s.store_peer(node, test_id(0xf0), &token, 5, 0, addr, 1));
    assert!(s.store_peer(node, near, &token, 5, 0, addr, 1));
    assert!(s.store_peer(node, near, &token, 5, 1, addr, 1));
    assert!(s.store_peer(node, near, &token, 5, 0, addr, 2));
    assert_eq!(s.get_peers(near), vec![v4(1, 2, 3, 4, 5), addr]);
    assert_eq!(s.get_peers(node), vec![]);
    assert_eq!(s.peers_len, 2);
}

#[test]
fn old_tokens_are_forgotten() {
    let mut s = PeerStore::new(test_id(7));
    let addr = v4(1, 2, 3, 4, 1000);
    let token = s.gen_token_for(test_id(9), addr);
    for _ in 0..999 {
        s.gen_token_for(test_id(1), v4(9, 9, 9, 9, 9));
    }
    assert!(s.store_peer(test_id(9), test_id(7), &token, 1, 0, addr, 0));
    s.gen_token_for(test_id(1), v4(9, 9, 9, 9, 9));
    assert!(!s.store_peer(test_id(9), test_id(7), &token, 1, 0, addr, 0));
}

#[test]
fn peers_are_limited() {
    let mut list = Vec::new();
    for i in 0..1100u32 {
        list.push(v4(1, 2, (i / 256) as u8, (i % 256) as u8, 7));
    }
    let s = PeerStore::new_with_persistence(test_id(1), &vec![(test_id(2), list)], 0);
    assert_eq!(s.peers_len, 1000);
    assert_eq!(s.collect_persisted().len(), 1);
}

fn node(now: u64) -> DhtNode {
    DhtNode::new_internal(
        test_id(1),
        None,
        None,
        v4(0, 0, 0, 0, 6881),
        PeerStore::new(test_id(1)),
        now,
    )
}

#[test]
fn queries_are_answered() {
    let mut n = node(0);
    let from = v4(9, 9, 9, 9, 99);
    let ping = Message::PingRequest { transaction_id: b"ab".to_vec(), id: test_id(5) };
    match n.handle_incoming(ping, from, 1).unwrap() {
        Incoming::Reply(Message::PingResponse { transaction_id, id, ip }) => {
            assert_eq!(transaction_id, b"ab");
            assert_eq!(id, test_id(1));
            assert_eq!(ip, Some(from));
        }
        _ => panic!("wrong reply"),
    }
    let get = Message::GetPeersRequest {
        transaction_id: b"cd".to_vec(),
        id: test_id(5),
        info_hash: test_id(1),
        want: Want::Neither,
    };
    let token = match n.handle_incoming(get, from, 1).unwrap() {
        Incoming::Reply(Message::GetPeersResponse { token, values, .. }) => {
            assert!(values.is_empty());
            token
        }
        _ => panic!("wrong reply"),
    };
    let announce = Message::AnnouncePeerRequest {
        transaction_id: b"ef".to_vec(),
        id: test_id(5),
        info_hash: test_id(1),
        token,
        port: 4242,
        implied_port: 0,
    };
    assert!(matches!(
        n.handle_incoming(announce, from, 1).unwrap(),
        Incoming::Reply(Message::AnnouncePeerResponse { .. })
    ));
    assert_eq!(n.peer_store.get_peers(test_id(1)), vec![v4(9, 9, 9, 9, 4242)]);
}

#[test]
fn answers_find_their_requests() {
    let mut n = node(0);
    let from = v4(9, 9, 9, 9, 99);
    let (tid, data) = n.create_message(&Request::FindNode(test_id(3)), from);
    assert_eq!(tid, 0);
    match deserialize(&data).unwrap() {
        Message::FindNodeRequest { target, want, .. } => {
            assert_eq!(target, test_id(3));
            assert_eq!(want, Want::V4);
        }
        _ => panic!("wrong kind"),
    }
    let pong = Message::PingResponse { transaction_id: vec![0, 7], id: test_id(5), ip: None };
    match n.handle_incoming(pong, from, 1).unwrap() {
        Incoming::Answer { tid, answer: ResponseOrError::Response(_) } => assert_eq!(tid, 7),
        _ => panic!("wrong action"),
    }
    assert_eq!(n.table_v4.iter_nodes().len(), 1);
    let bad = Message::PingResponse { transaction_id: vec![7], id: test_id(5), ip: None };
    assert!(matches!(n.handle_incoming(bad, from, 1), Err(Error::BadTransactionId)));
    let err = Message::Error { transaction_id: vec![0, 8], code: 201, message: vec![1] };
    assert!(matches!(
        n.handle_incoming(err, from, 1),
        Ok(Incoming::Answer { tid: 8, answer: ResponseOrError::Error(201, _) })
    ));
    assert_eq!(n.stats(3, "here".to_string()).routing_table_size, 1);
}

#[test]
fn nodes_near_a_target_are_named() {
    let mut n = node(0);
    let from = v4(9, 9, 9, 9, 99);
    let pong = Message::PingResponse { transaction_id: vec![0, 7], id: test_id(5), ip: None };
    n.handle_incoming(pong, from, 1).unwrap();
    let find = Message::FindNodeRequest {
        transaction_id: b"x".to_vec(),
        id: test_id(6),
        target: test_id(5),
        want: Want::Both,
    };
    match n.handle_incoming(find, from, 2).unwrap() {
        Incoming::Reply(Message::FindNodeResponse { nodes, nodes6, .. }) => {
            assert_eq!(nodes.len(), 26);
            assert_eq!(&nodes[..20], &[5u8; 20]);
            assert_eq!(&nodes[20..], &[9, 9, 9, 9, 0, 99]);
            assert!(nodes6.is_empty());
        }
        _ => panic!("wrong reply"),
    }
}

#[test]
fn three_nodes_settle_the_address() {
    let mut n = node(0);
    let ip = v4(8, 8, 4, 4, 0).ip();
    n.note_external_ip(ip, v4(1, 1, 1, 1, 1));
    n.note_external_ip(ip, v4(1, 1, 1, 1, 1));
    n.note_external_ip(ip, v4(1, 1, 1, 2, 1));
    assert_eq!(n.external_ip(), None);
    n.note_external_ip(v4(192, 168, 0, 1, 0).ip(), v4(1, 1, 1, 3, 1));
    assert_eq!(n.votes.len(), 2);
    n.note_external_ip(ip, v4(1, 1, 1, 3, 1));
    assert_eq!(n.external_ip(), Some(ip));
    let other = v4(9, 9, 9, 9, 0).ip();
    for k in 0..5 {
        n.note_external_ip(other, v4(2, 2, 2, k, 1));
    }
    assert_eq!(n.external_ip(), Some(ip));
}

#[test]
fn packets_are_taken_or_not() {
    let mut n = node(0);
    let from = v4(9, 9, 9, 9, 99);
    let data = serialize(&Message::PingRequest { transaction_id: vec![1, 2], id: test_id(4) });
    assert!(n.accept_packet(&[], from, 0, 0).is_none());
    assert!(n.accept_packet(&data, from, 0, 0).is_some());
    assert!(n.accept_packet(b"junk", from, 0, 0).is_none());
    for _ in 0..48 {
        assert!(n.accept_packet(&data, from, 0, 0).is_some());
    }
    assert!(n.accept_packet(&data, from, 0, 0).is_none());
    assert!(n.accept_packet(&data, from, 1, 1).is_some());
}

#[test]
fn lookups_ask_each_node_once() {
    let mut l = Lookup::new(test_id(0), 4, 2);
    assert!(l.should_request(test_id(8), v4(1, 1, 1, 8, 1), 0, 0));
    assert!(!l.should_request(test_id(8), v4(1, 1, 1, 8, 1), 0, 60 * SECOND));
    assert!(l.should_request(test_id(8), v4(1, 1, 1, 8, 1), 0, 60 * SECOND + 1));
    assert!(!l.should_request(test_id(9), v4(1, 1, 1, 9, 1), 4, 0));
    assert!(l.should_request(test_id(9), v4(1, 1, 1, 9, 1), 3, 0));
    assert!(!l.should_request(test_id(10), v4(1, 1, 1, 10, 1), 0, 0));
    assert!(l.should_request(test_id(1), v4(1, 1, 1, 1, 1), 0, 0));
    let ids: Vec<u8> = l.useful_nodes.iter().map(|n| n.id.0[0]).collect();
    assert_eq!(ids, vec![1, 8]);
    l.mark_error(v4(1, 1, 1, 8, 1));
    assert_eq!(l.useful_nodes[1].errors_in_a_row, 1);
}

#[test]
fn answers_lead_to_more_nodes() {
    let mut l = Lookup::for_peers(test_id(0));
    let mut nodes = Vec::new();
    nodes.extend_from_slice(&[7u8; 20]);
    nodes.extend_from_slice(&[1, 2, 3, 4, 0, 5]);
    let answer = Message::GetPeersResponse {
        transaction_id: vec![],
        id: test_id(9),
        token: vec![1],
        values: vec![v4(5, 5, 5, 5, 5)],
        nodes,
        nodes6: vec![0u8; 38],
        ip: None,
    };
    let (peers, asked) = l.take_answer(&answer, v4(9, 9, 9, 9, 9), 0, 1);
    assert_eq!(peers, vec![v4(5, 5, 5, 5, 5)]);
    assert_eq!(asked, vec![(test_id(7), v4(1, 2, 3, 4, 5))]);
    let (_, again) = l.take_answer(&answer, v4(9, 9, 9, 9, 9), 0, 2);
    assert!(again.is_empty());
    assert!(matches!(lookup_result(0, 3), Err(Error::NoSuccessfulLookups { errors: 3 })));
    assert!(lookup_result(1, 3).is_ok());
    assert_eq!(requery_delay(0), 1000);
    assert_eq!(requery_delay(3), 22500);
    assert_eq!(requery_delay(8), 60000);
}

#[test]
fn announcements_go_to_nodes_with_their_own_id() {
    let mut n = node(0);
    let ip = IpAddr::V4(Ipv4Addr::new(8, 8, 8, 8));
    let id = InfoHash(generate_node_id(ip));
    let addr = v4(8, 8, 8, 8, 1);
    let answer = Message::GetPeersResponse {
        transaction_id: vec![],
        id,
        token: vec![1, 2],
        values: vec![],
        nodes: vec![],
        nodes6: vec![],
        ip: None,
    };
    assert!(n.announce_to(id, id, addr, &answer, None).is_none());
    let (tid, data) = n.announce_to(id, id, addr, &answer, Some(77)).unwrap();
    assert_eq!(tid, 0);
    match deserialize(&data).unwrap() {
        Message::AnnouncePeerRequest { info_hash, token, port, .. } => {
            assert_eq!(info_hash, id);
            assert_eq!(token, vec![1, 2]);
            assert_eq!(port, 77);
        }
        _ => panic!("wrong kind"),
    }
    let mut other = id;
    other.0[0] ^= 0xff;
    assert!(n.announce_to(other, other, addr, &answer, Some(77)).is_none());
    assert!(n.announce_to(other, id, addr, &answer, Some(77)).is_none());
}

#[test]
fn lookups_fill_the_table() {
    let mut n = node(0);
    let addr = v4(8, 8, 8, 8, 1);
    n.lookup_started(test_id(4), addr, 5);
    assert_eq!(n.table_v4.iter_nodes()[0].last_request, Some(5));
    n.lookup_ended(test_id(4), addr, true, 6);
    assert_eq!(n.table_v4.iter_nodes()[0].status(7), NodeStatus::Good);
    n.lookup_ended(test_id(4), addr, false, 8);
    assert_eq!(n.table_v4.iter_nodes()[0].errors_in_a_row, 1);
    let six = SocketAddr::V6(SocketAddrV6 { ip: Ipv6Addr { bits: 5 }, port: 1 });
    n.lookup_started(test_id(4), six, 5);
    assert_eq!(n.table_v6.iter_nodes().len(), 1);
}

#[test]
fn nodes_keep_their_state() {
    let p = PersistedDht {
        node_id: test_id(3).to_hex(),
        listen_addr: String::new(),
        table_v4: make_table(),
        table_v6: None,
        peers: vec![PersistedPeerEntry {
            info_hash: test_id(2).to_hex(),
            addrs: vec![v4(1, 1, 1, 1, 2)],
        }],
    };
    let n = DhtBuilder::with_config(Some(p), v4(0, 0, 0, 0, 1), 9);
    assert_eq!(n.id, test_id(3));
    assert_eq!(n.table_v4.len(), 8);
    assert_eq!(n.peer_store.get_peers(test_id(2)).len(), 1);
    let c = PersistentDhtConfig::default();
    assert_eq!((c.interval(), c.requested_port()), (60, 0));
    assert_eq!(PersistentDhtConfig::with_port(7).requested_port(), 7);
}

#[test]
fn first_hosts_are_asked_again() {
    assert_eq!(dht_bootstrap()[2], "router.bittorrent.com:6881");
    let mut b = Bootstrap::new();
    assert!(matches!(b.result(), Err(Error::BootstrapFailed)));
    assert_eq!(b.failed_with(1999), Some(1999));
    assert_eq!(b.failed_with(0), Some(2000));
    for _ in 0..5 {
        b.failed_with(0);
    }
    assert_eq!(b.failed_with(0), Some(60000));
    let wait = b.failed().unwrap();
    assert!(wait >= 60000 && wait < 61000);
    b.succeeded();
    b.next_host();
    assert_eq!(b.failed_with(0), None);
    assert!(b.result().is_ok());
    let six = SocketAddr::V6(SocketAddrV6 { ip: Ipv6Addr { bits: 5 }, port: 1 });
    let (a, c) = split_families(&vec![six, v4(1, 1, 1, 1, 1)]);
    assert_eq!(a, vec![v4(1, 1, 1, 1, 1)]);
    assert_eq!(c, vec![six]);
}

#[test]
fn errors_of_the_dht_as_text() {
    let e = Error::task_finished("framer", Err(Error::ResponseTimeout(10)));
    assert_eq!(e.message(), "framer failed: timeout after 10s");
    assert_eq!(Error::task_finished("pinger", Ok(())).message(), "pinger finished unexpectedly");
    assert_eq!(
        Error::NoSuccessfulLookups { errors: 4 }.message(),
        "no successful lookups, 4 errors"
    );
    let e = Error::BootstrapLookup { hostname: "h".to_string(), err: "x".to_string() };
    assert_eq!(e.message(), "error looking up h: x");
    assert_eq!(Error::Bind("x".to_string()).message(), "error binding UDP socket: x");
    assert_eq!(Error::Send("x".to_string()).message(), "error sending: x");
    assert_eq!(Error::Recv("x".to_string()).message(), "error receiving: x");
    assert_eq!(Error::Bencode("x".to_string()).message(), "bencode error: x");
    assert_eq!(Error::DhtDead.message(), "dht is dead");
    assert_eq!(Error::ReceiverDead.message(), "receiver is dead");
    assert_eq!(Error::ErrorResponse.message(), "error response from node");
    assert_eq!(Error::RequestNotFound.message(), "outstanding request not found");
    assert_eq!(Error::BadTransactionId.message(), "bad transaction id");
    assert_eq!(Error::BootstrapFailed.message(), "bootstrapping failed");
}

#[test]
fn bursts_within_a_second() {
    let mut l = PerIpRateLimiter::new();
    let ip = v4(7, 7, 7, 7, 0).ip();
    let start = 5_000_000_000;
    for k in 0..100 {
        assert!(l.allow(ip, start + k * 9_000_000));
    }
    assert!(!l.allow(ip, start + 950_000_000));
    assert!(!l.allow(ip, start + 999_999_999));
    assert!(l.allow(ip, start + 1_000_000_000));
}

#[test]
fn changed_bits_are_refused() {
    let ip = v4(124, 31, 75, 21, 0).ip();
    let id = assemble_with(compute_crc(ip, 1), 1, &[5; 17]);
    assert!(validate_node_id(&id, ip));
    for bit in 0..24 {
        let mut other = id;
        other[bit / 8] ^= 0x80 >> (bit % 8);
        assert_eq!(validate_node_id(&other, ip), bit >= 21);
    }
}

#[test]
fn kept_hashes_are_written_in_lower_case() {
    let hash = test_id(0xab);
    let entry = PersistedPeerEntry { info_hash: hash.to_hex(), addrs: vec![v4(1, 2, 3, 4, 5)] };
    let store = make_persistent_peer_store(hash, &vec![entry], 0);
    let kept = persisted_peers(&store);
    assert_eq!(kept.len(), 1);
    assert_eq!(kept[0].info_hash, "ab".repeat(20));
    assert_eq!(kept[0].addrs, vec![v4(1, 2, 3, 4, 5)]);
}

use retorrent::bencode::parser::BencodeParser;
use retorrent::bencode::BencodeValue;
use retorrent::dht::compact::{build_compact_peer_addr, parse_compact_peer_addr};
use retorrent::dht::protocol::{
    decode_transaction_id, deserialize, encode_transaction_id, serialize, Message, QueryMethod, Want,
};
use retorrent::net::{Ipv4Addr, SocketAddr, SocketAddrV4};
use retorrent::types::InfoHash;

fn test_id(byte: u8) -> InfoHash {
    InfoHash([byte; 20])
}

fn v4(a: u8, b: u8, c: u8, d: u8, port: u16) -> SocketAddr {
    SocketAddr::V4(SocketAddrV4::new(Ipv4Addr::new(a, b, c, d), port))
}

#[test]
fn ping_request_roundtrip() {
    let id = test_id(0xaa);
    let msg = Message::PingRequest { transaction_id: vec![0x12, 0x34], id };
    let bytes = serialize(&msg);
    let parsed = deserialize(&bytes).expect("deserialize");
    match parsed {
        Message::PingRequest { transaction_id, id: pid } => {
            assert_eq!(transaction_id, vec![0x12, 0x34]);
            assert_eq!(pid, id);
        }
        _ => panic!("wrong kind"),
    }
}

#[test]
fn find_node_request_want_roundtrip() {
    let id = test_id(0xbb);
    let target = test_id(0xcc);
    let msg =
        Message::FindNodeRequest { transaction_id: b"aa".to_vec(), id, target, want: Want::V4 };
    let bytes = serialize(&msg);
    let parsed = deserialize(&bytes).expect("deserialize");
    match parsed {
        Message::FindNodeRequest { id: pid, target: pt, want, .. } => {
            assert_eq!(pid, id);
            assert_eq!(pt, target);
            assert_eq!(want, Want::V4);
        }
        _ => panic!("wrong kind"),
    }
}

#[test]
fn get_peers_response_values_as_list_roundtrip() {
    let id = test_id(0xdd);
    let values = vec![v4(1, 2, 3, 4, 6881), v4(5, 6, 7, 8, 51413)];
    let msg = Message::GetPeersResponse {
        transaction_id: b"tt".to_vec(),
        id,
        token: b"abcde".to_vec(),
        values: values.clone(),
        nodes: Vec::new(),
        nodes6: Vec::new(),
        ip: None,
    };
    let bytes = serialize(&msg);
    let parsed_val = BencodeParser::parse(&bytes).expect("parse");
    let r = parsed_val
        .as_dict()
        .expect("dict")
        .get("r")
        .expect("r")
        .as_dict()
        .expect("r dict");
    let values_val = r.get("values").expect("values field");
    assert!(
        matches!(values_val, BencodeValue::List(_)),
        "values should be a bencode list, got {:?}",
        values_val
    );
    let parsed = deserialize(&bytes).expect("deserialize");
    match parsed {
        Message::GetPeersResponse { values: pv, token, .. } => {
            assert_eq!(pv, values);
            assert_eq!(token, b"abcde");
        }
        _ => panic!("wrong kind"),
    }
}

#[test]
fn announce_peer_wires_format() {
    let id = test_id(0x01);
    let info_hash = test_id(0x02);
    let msg = Message::AnnouncePeerRequest {
        transaction_id: b"x1".to_vec(),
        id,
        info_hash,
        token: b"tkn".to_vec(),
        port: 6881,
        implied_port: 0,
    };
    let bytes = serialize(&msg);
    let expected = b"d1:ad2:id20:".to_vec();
    assert_eq!(&bytes[..expected.len()], &expected[..]);
    let parsed = deserialize(&bytes).expect("deserialize");
    match parsed {
        Message::AnnouncePeerRequest { port, implied_port, .. } => {
            assert_eq!(port, 6881);
            assert_eq!(implied_port, 0);
        }
        _ => panic!("wrong kind"),
    }
}

#[test]
fn find_node_response_with_nodes6_roundtrip() {
    let id = test_id(0xee);
    let node_id = test_id(0xff);
    let mut nodes = Vec::new();
    nodes.extend_from_slice(&node_id.0);
    nodes.extend_from_slice(&[127, 0, 0, 1]);
    nodes.extend_from_slice(&6881u16.to_be_bytes());
    let mut nodes6 = Vec::new();
    let v6_id = test_id(0x77);
    nodes6.extend_from_slice(&v6_id.0);
    nodes6.extend_from_slice(&[0x20, 0x01, 0x0d, 0xb8, 0, 0, 0, 0, 0, 0, 0, 0, 0, 0, 0, 0x01]);
    nodes6.extend_from_slice(&51413u16.to_be_bytes());
    let msg = Message::FindNodeResponse {
        transaction_id: b"q2".to_vec(),
        id,
        nodes: nodes.clone(),
        nodes6: nodes6.clone(),
        ip: None,
    };
    let bytes = serialize(&msg);
    let parsed = deserialize(&bytes).expect("deserialize");
    match parsed {
        Message::FindNodeResponse { nodes: pn, nodes6: pn6, .. } => {
            assert_eq!(pn, nodes);
            assert_eq!(pn6, nodes6);
        }
        _ => panic!("wrong kind"),
    }
}

#[test]
fn want_serialize_list_format() {
    let l = Want::Both.serialize_list();
    let bytes = BencodeParser::encode(&l);
    assert_eq!(bytes, b"l2:n42:n6e");
    let l = Want::V4.serialize_list();
    let bytes = BencodeParser::encode(&l);
    assert_eq!(bytes, b"l2:n4e");
    let l = Want::V6.serialize_list();
    let bytes = BencodeParser::encode(&l);
    assert_eq!(bytes, b"l2:n6e");
    let l = Want::Neither.serialize_list();
    let bytes = BencodeParser::encode(&l);
    assert_eq!(bytes, b"le");
}

#[test]
fn transaction_ids_in_bytes() {
    assert_eq!(encode_transaction_id(0x1234), vec![0x12, 0x34]);
    assert_eq!(decode_transaction_id(&[0x12, 0x34]), Some(0x1234));
    assert_eq!(decode_transaction_id(&[1]), None);
    assert_eq!(QueryMethod::from_bytes(b"get_peers"), Some(QueryMethod::GetPeers));
    assert_eq!(QueryMethod::from_bytes(b"vote"), None);
    assert_eq!(QueryMethod::AnnouncePeer.as_bytes(), b"announce_peer");
}

#[test]
fn compact_addresses_come_back() {
    let a = v4(1, 2, 3, 4, 258);
    assert_eq!(build_compact_peer_addr(a), vec![1, 2, 3, 4, 1, 2]);
    assert_eq!(parse_compact_peer_addr(&[1, 2, 3, 4, 1, 2]), Some(a));
    assert_eq!(parse_compact_peer_addr(&[1, 2, 3]), None);
    let six: Vec<u8> = (0u8..18).collect();
    let b = parse_compact_peer_addr(&six).unwrap();
    assert_eq!(build_compact_peer_addr(b), six);
}

#[test]
fn errors_come_back() {
    let msg = Message::Error { transaction_id: b"zz".to_vec(), code: 203, message: b"bad".to_vec() };
    match deserialize(&serialize(&msg)).unwrap() {
        Message::Error { transaction_id, code, message } => {
            assert_eq!(transaction_id, b"zz");
            assert_eq!(code, 203);
            assert_eq!(message, b"bad");
        }
        _ => panic!("wrong kind"),
    }
    assert!(deserialize(b"d1:y1:xe").is_none());
    assert!(deserialize(b"nonsense").is_none());
}

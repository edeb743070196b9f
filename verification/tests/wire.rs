use retorrent::bencode::parser::BencodeParser;
use retorrent::bencode::{BencodeDict, BencodeValue};
use retorrent::net::{Ipv4Addr, SocketAddrV4};
use retorrent::peer::connection::PeerConnection;
use retorrent::peer::extension::find_dict_end;
use retorrent::peer::message::PeerMessage;
use retorrent::peer::metadata::MetadataState;
use retorrent::types::{InfoHash, PeerId};
use sha1::{Digest, Sha1};

fn peer(a: u8, port: u16) -> SocketAddrV4 {
    SocketAddrV4::new(Ipv4Addr::new(10, 0, 0, a), port)
}

#[test]
fn extended_handshake_roundtrip() {
    let payload = PeerMessage::build_extended_handshake_payload(64);
    let (pex_id, metadata_id) = PeerMessage::parse_extended_handshake(&payload);
    assert_eq!(pex_id, Some(1), "we should advertise ut_pex at id 1");
    assert_eq!(metadata_id, Some(2), "we should advertise ut_metadata at id 2");
}

#[test]
fn extended_handshake_only_ut_metadata() {
    let mut m = BencodeDict::new();
    m.insert("ut_metadata".to_string(), BencodeValue::Integer(2));
    let mut top = BencodeDict::new();
    top.insert("m".to_string(), BencodeValue::Dict(m));
    let payload = BencodeParser::encode(&BencodeValue::Dict(top));
    let (pex_id, metadata_id) = PeerMessage::parse_extended_handshake(&payload);
    assert_eq!(pex_id, None);
    assert_eq!(metadata_id, Some(2));
}

#[test]
fn messages_in_bytes() {
    assert_eq!(PeerMessage::KeepAlive.encode(), vec![0, 0, 0, 0]);
    assert_eq!(PeerMessage::Have(258).encode(), vec![0, 0, 0, 5, 4, 0, 0, 1, 2]);
    let r = PeerMessage::Request { index: 1, begin: 16384, length: 16384 };
    assert_eq!(r.encode(), vec![0, 0, 0, 13, 6, 0, 0, 0, 1, 0, 0, 64, 0, 0, 0, 64, 0]);
    assert_eq!(PeerMessage::Port(6881).encode(), vec![0, 0, 0, 3, 9, 26, 225]);
    let e = PeerMessage::Extended { id: 3, payload: vec![1, 2] };
    assert_eq!(e.encode(), vec![0, 0, 0, 4, 20, 3, 1, 2]);
}

#[test]
fn messages_come_back() {
    let p = PeerMessage::Piece { index: 4, begin: 5, data: vec![6, 7, 8] };
    match PeerMessage::decode(&p.encode()[4..]).unwrap() {
        PeerMessage::Piece { index, begin, data } => {
            assert_eq!((index, begin), (4, 5));
            assert_eq!(data, vec![6, 7, 8]);
        }
        _ => panic!("wrong kind"),
    }
    assert!(matches!(PeerMessage::decode(&[0]).unwrap(), PeerMessage::Choke));
    assert!(matches!(PeerMessage::decode(&[]).unwrap(), PeerMessage::KeepAlive));
    assert!(PeerMessage::decode(&[4, 0, 0]).is_err());
    assert!(PeerMessage::decode(&[77]).is_err());
}

#[test]
fn handshakes_are_checked() {
    let hash = InfoHash([3; 20]);
    let id = PeerId([9; 20]);
    let m = PeerConnection::handshake_message(&hash, &id, true);
    assert_eq!(m.len(), 68);
    assert_eq!(m[0], 19);
    assert_eq!(&m[1..20], b"BitTorrent protocol");
    assert_eq!(&m[28..48], &[3u8; 20]);
    assert_eq!(&m[48..68], &[9u8; 20]);
    assert_eq!(PeerConnection::check_handshake(&m, &hash).unwrap().0, [9u8; 20]);
    assert!(PeerConnection::check_handshake(&m, &InfoHash([4; 20])).is_err());
    let mut bad = m.clone();
    bad[0] = 18;
    assert!(PeerConnection::check_handshake(&bad, &hash).is_err());
}

#[test]
fn pieces_of_a_peer() {
    let mut c = PeerConnection::new_connection(peer(1, 1));
    assert!(!c.has_piece(9));
    c.set_piece(9);
    assert!(c.has_piece(9));
    assert!(!c.has_piece(8));
    assert_eq!(c.bitfield, vec![0, 0b0100_0000]);
}

#[test]
fn peer_exchange_comes_back() {
    let added = vec![peer(1, 6881), peer(2, 6882)];
    let dropped = vec![peer(3, 1)];
    let payload = PeerMessage::build_pex_payload(&added, &dropped);
    let (a, d) = PeerMessage::parse_pex_payload(&payload);
    assert_eq!(a, added);
    assert_eq!(d, dropped);
}

#[test]
fn metadata_messages_come_back() {
    let (kind, piece, _, data) =
        PeerMessage::parse_metadata_message(&PeerMessage::build_metadata_request(3));
    assert_eq!((kind, piece, data.len()), (0, 3, 0));
    let (kind, piece, size, data) =
        PeerMessage::parse_metadata_message(&PeerMessage::build_metadata_data(1, Some(50), b"abc"));
    assert_eq!((kind, piece, size), (1, 1, 50));
    assert_eq!(data, b"abc");
    let (kind, piece, _, _) =
        PeerMessage::parse_metadata_message(&PeerMessage::build_metadata_reject(2));
    assert_eq!((kind, piece), (2, 2));
    assert_eq!(find_dict_end(b"d1:ai1eexyz"), Some(8));
    assert_eq!(find_dict_end(b"d1:a"), None);
}

#[test]
fn metadata_is_assembled() {
    let mut data: Vec<u8> = Vec::new();
    for i in 0..20000u32 {
        data.push((i % 251) as u8);
    }
    let hash: [u8; 20] = Sha1::digest(&data).into();
    let mut m = MetadataState::new(InfoHash(hash));
    m.set_total_size(data.len());
    assert_eq!(m.num_pieces, 2);
    assert_eq!(m.next_missing(), Some(0));
    assert!(!m.store_piece(1, data[16384..].to_vec()));
    assert!(!m.has_all());
    assert!(m.assemble().is_none());
    assert!(m.store_piece(0, data[..16384].to_vec()));
    assert!(m.has_all());
    let whole = m.assemble().unwrap();
    assert_eq!(whole, data);
    assert!(m.verify(&whole));
    assert!(!m.verify(&whole[1..]));
}

#[test]
fn only_data_messages_have_a_size() {
    let request = b"d8:msg_typei0e5:piecei3e10:total_sizei5ee";
    assert_eq!(PeerMessage::parse_metadata_message(request), (0, 3, 0, vec![]));
    let reject = b"d8:msg_typei2e5:piecei3e10:total_sizei5ee";
    assert_eq!(PeerMessage::parse_metadata_message(reject), (2, 3, 0, vec![]));
    let data = b"d8:msg_typei1e5:piecei3e10:total_sizei5eexy";
    assert_eq!(PeerMessage::parse_metadata_message(data), (1, 3, 5, b"xy".to_vec()));
}

#[test]
fn dictionaries_end_after_their_lists() {
    assert_eq!(find_dict_end(b"d1:ali1eee"), Some(10));
    assert_eq!(find_dict_end(b"d1:ali1eeerest"), Some(10));
    assert_eq!(find_dict_end(b"d1:alld1:b0:elleeee"), None);
    assert_eq!(find_dict_end(b"d1:alld1:b0:eleeeex"), Some(18));
    assert_eq!(find_dict_end(b"d1:a2:lee"), Some(9));
    assert_eq!(find_dict_end(b"l1:ae"), None);
    let listed = b"d1:xl1:ai7ee8:msg_typei0e5:piecei4ee";
    assert_eq!(PeerMessage::parse_metadata_message(listed), (0, 4, 0, vec![]));
}

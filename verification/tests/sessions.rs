use retorrent::bencode::parser::BencodeParser;
use retorrent::bencode::{BencodeDict, BencodeValue};
use retorrent::engine::{
    enforce_queue, magnet_meta, open_magnet, open_torrent, reopen, OpenFault, QueueAction, QueueEntry,
};
use retorrent::metainfo::MetaInfo;
use retorrent::net::{Ipv4Addr, SocketAddrV4};
use retorrent::network::choke::choke_round;
use retorrent::network::peer_messages::{piece_matches, PieceCheck};
use retorrent::network::peer_session::{PeerAction, PeerSession, PieceStart};
use retorrent::network::peers::{PeerStats, PeerTable};
use retorrent::network::session::{tracker_list, Finalized, Seeding, TorrentSession};
use retorrent::peer::message::PeerMessage;
use retorrent::pending::{checked_priorities, drain_pending_intents, queue_torrent_bytes, PendingTorrent};
use retorrent::types::{FilePriority, InfoHash, MagnetLink, PeerId, PrevState, TorrentState};
use retorrent::ui::adding::AddDialog;
use sha1::{Digest, Sha1};

fn peer(a: u8) -> SocketAddrV4 {
    SocketAddrV4::new(Ipv4Addr::new(10, 0, 0, a), 6881)
}

fn data() -> Vec<u8> {
    (0..40000u32).map(|i| (i % 241) as u8).collect()
}

fn info_bytes() -> Vec<u8> {
    let mut pieces = Vec::new();
    for chunk in data().chunks(32768) {
        pieces.extend_from_slice(&Sha1::digest(chunk));
    }
    let mut d = BencodeDict::new();
    d.insert("name".to_string(), BencodeValue::ByteString(b"file.bin".to_vec()));
    d.insert("piece length".to_string(), BencodeValue::Integer(32768));
    d.insert("length".to_string(), BencodeValue::Integer(40000));
    d.insert("pieces".to_string(), BencodeValue::ByteString(pieces));
    BencodeParser::encode(&BencodeValue::Dict(d))
}

fn torrent_bytes() -> Vec<u8> {
    let mut t = b"d8:announce8:http://a4:info".to_vec();
    t.extend_from_slice(&info_bytes());
    t.push(b'e');
    t
}

fn session() -> TorrentSession {
    let meta = MetaInfo::from_bytes(&torrent_bytes()).unwrap();
    TorrentSession::new(meta, PeerId([1; 20]), None)
}

#[test]
fn choice_goes_before_what_was_kept() {
    let id = PeerId([1; 20]);
    let mut s = open_torrent(torrent_bytes(), id, None, None).unwrap();
    assert_eq!(s.get_file_priorities(), vec![FilePriority::Normal]);
    assert_eq!(s.torrent_bytes, Some(torrent_bytes()));
    s.piece_manager.mark_piece_complete(0);
    s.total_downloaded = 3;
    s.set_file_priority(0, FilePriority::Low);
    let rd = s.snapshot_resume(5);

    let t = open_torrent(torrent_bytes(), id, None, Some(&rd)).unwrap();
    assert_eq!(t.get_file_priorities(), vec![FilePriority::Low]);
    assert_eq!(t.piece_manager.get_have_vec(), vec![true, false]);
    assert_eq!(t.total_downloaded, 3);
    assert!(t.paused);
    assert_eq!(t.stats.state, TorrentState::Paused);

    let chosen = [FilePriority::High];
    let u = open_torrent(torrent_bytes(), id, Some(&chosen), Some(&rd)).unwrap();
    assert_eq!(u.get_file_priorities(), vec![FilePriority::High]);
    assert_eq!(u.piece_manager.piece_priorities, vec![FilePriority::High; 2]);
    assert_eq!(u.piece_manager.get_have_vec(), vec![true, false]);
}

#[test]
fn torrents_that_cannot_be_opened() {
    let id = PeerId([1; 20]);
    assert!(matches!(open_torrent(b"i1".to_vec(), id, None, None), Err(OpenFault::Torrent(_))));
    let mut info = BencodeDict::new();
    info.insert("name".to_string(), BencodeValue::ByteString(b"f".to_vec()));
    info.insert("piece length".to_string(), BencodeValue::Integer(0));
    info.insert("length".to_string(), BencodeValue::Integer(1));
    info.insert("pieces".to_string(), BencodeValue::ByteString(vec![7; 20]));
    let mut root = BencodeDict::new();
    root.insert("info".to_string(), BencodeValue::Dict(info));
    let data = BencodeParser::encode(&BencodeValue::Dict(root));
    assert!(matches!(open_torrent(data.clone(), id, None, None), Err(OpenFault::Unplaceable)));
    let skipped = [FilePriority::Skip];
    assert!(open_torrent(data, id, Some(&skipped), None).is_ok());
}

#[test]
fn state_is_kept_between_runs() {
    let mut s = session();
    s.set_torrent_bytes(torrent_bytes());
    s.piece_manager.mark_piece_complete(1);
    s.total_downloaded = 7;
    s.total_uploaded = 9;
    s.set_file_priority(0, FilePriority::High);
    assert!(s.begin());
    assert!(!s.begin());
    let rd = s.snapshot_resume(1234);
    assert_eq!(rd.have_pieces, vec![false, true]);
    assert_eq!(rd.prev_state, PrevState::Running);
    assert_eq!(rd.added_time, 1234);
    let (t, start) = reopen(&rd, PeerId([1; 20])).unwrap().unwrap();
    assert!(start);
    assert_eq!(t.piece_manager.get_have_vec(), vec![false, true]);
    assert_eq!((t.total_downloaded, t.total_uploaded), (7, 9));
    assert_eq!(t.get_file_priorities(), vec![FilePriority::High]);
    assert!(!t.paused);
    s.pause();
    assert_eq!(s.snapshot_resume(0).prev_state, PrevState::Paused);
    s.resume();
    assert!(!s.paused && !s.started);
}

#[test]
fn metadata_turns_into_a_torrent() {
    let info = info_bytes();
    let hash: [u8; 20] = Sha1::digest(&info).into();
    let link = MagnetLink {
        info_hash: InfoHash(hash),
        display_name: None,
        trackers: vec!["http://a".to_string(), "http://b".to_string()],
        web_seeds: vec!["http://w/".to_string()],
    };
    let meta = magnet_meta(&link);
    assert_eq!(meta.name, InfoHash(hash).to_hex());
    assert_eq!(meta.announce.as_deref(), Some("http://a"));
    assert_eq!(meta.announce_list.len(), 1);
    assert_eq!(tracker_list(&meta), vec!["http://a".to_string(), "http://b".to_string()]);
    let mut s = open_magnet(&link, PeerId([2; 20]));
    assert_eq!(s.stats.state, TorrentState::FetchingMetadata);
    let wrapped = TorrentSession::wrap_info_dict(&info);
    assert_eq!(&wrapped[..7], b"d4:info");
    assert_eq!(MetaInfo::from_bytes(&wrapped).unwrap().info_hash.0, hash);
    assert!(matches!(s.finalize_metadata(&info), Ok(Finalized::Updated)));
    assert_eq!(s.meta.name, "file.bin");
    assert_eq!(s.piece_manager.num_pieces, 2);
    assert!(matches!(s.finalize_metadata(&info), Ok(Finalized::AlreadyKnown)));
}

#[test]
fn a_piece_is_downloaded() {
    let mut s = session();
    let (mut p, first) = PeerSession::open(&mut s, peer(1), 8, 0);
    assert!(!first.is_empty());
    assert!(!p.may_request());
    p.on_message(&mut s, PeerMessage::Bitfield(vec![0b0100_0000]), 1);
    assert!(matches!(p.on_message(&mut s, PeerMessage::Unchoke, 1), PeerAction::Nothing | PeerAction::Send(_)));
    assert!(p.may_request());
    let mut c = match p.start_piece(&mut s.piece_manager, false) {
        PieceStart::Started(c) => c,
        _ => panic!("no piece"),
    };
    assert_eq!((c.index, c.num_blocks), (1, 1));
    p.begin_piece(c.index, c.num_blocks);
    let blocks = c.claim_blocks(p.wanted_blocks(), 2);
    assert_eq!(blocks, vec![(0, 7232)]);
    match p.request_block(0, 7232) {
        Some(PeerMessage::Request { index, begin, length }) => {
            assert_eq!((index, begin, length), (1, 0, 7232))
        }
        _ => panic!("no request"),
    }
    let block = data()[32768..].to_vec();
    let msg = PeerMessage::Piece { index: 1, begin: 0, data: block.clone() };
    let (begin, bytes) = match p.on_message(&mut s, msg, 3) {
        PeerAction::Collect { begin, data } => (begin, data),
        _ => panic!("not collected"),
    };
    let whole = p.on_block(&mut c, begin, bytes).unwrap();
    assert!(piece_matches(&whole, &c.expected_hash));
    assert!(!piece_matches(&whole[1..], &c.expected_hash));
    s.piece_checked(1, PieceCheck::Written);
    assert!(s.piece_manager.have_piece(1));
    assert!(!s.completion_due());
    p.close(&mut s);
}

#[test]
fn blocks_are_served() {
    let mut s = session();
    s.piece_manager.load_have(&[true, true]);
    let (mut p, _) = PeerSession::open(&mut s, peer(1), 8, 0);
    p.on_message(&mut s, PeerMessage::Interested, 1);
    p.conn.am_choking = false;
    match p.on_message(&mut s, PeerMessage::Request { index: 0, begin: 4, length: 3 }, 1) {
        PeerAction::Serve { index, begin, length, piece_size } => {
            assert_eq!((index, begin, length, piece_size), (0, 4, 3, 32768));
        }
        _ => panic!("not served"),
    }
    match PeerSession::serve_block(0, 4, 3, &data()[..32768]) {
        PeerMessage::Piece { index, begin, data } => {
            assert_eq!((index, begin), (0, 4));
            assert_eq!(data, vec![4, 5, 6]);
        }
        _ => panic!("wrong kind"),
    }
    s.note_upload(3);
    assert_eq!(s.total_uploaded, 3);
    assert!(s.completion_due());
    assert!(!s.completion_due());
    assert_eq!(s.check_seeding(true, true), Seeding::Share);
    s.total_downloaded = 1;
    assert_eq!(s.check_seeding(true, false), Seeding::Share);
    assert_eq!(s.check_seeding(false, true), Seeding::Share);
    assert_eq!(s.check_seeding(true, true), Seeding::Stop);
    assert!(s.seed_ratio_reached);
}

#[test]
fn the_fastest_peers_are_unchoked() {
    let mut t = PeerTable::new();
    for i in 1..=5u8 {
        t.insert(
            peer(i),
            PeerStats { downloaded: i as u64 * 100, am_choking: true, peer_interested: true },
        );
    }
    let prev = choke_round(&mut t, &vec![], 3, false);
    assert_eq!(prev.len(), 5);
    let unchoked: Vec<u8> =
        (1..=5u8).filter(|i| !t.get(peer(*i)).unwrap().am_choking).collect();
    assert_eq!(unchoked, vec![4, 5]);
    choke_round(&mut t, &prev, 3, true);
    let open = (1..=5u8).filter(|i| !t.get(peer(*i)).unwrap().am_choking).count();
    assert_eq!(open, 3);
}

fn entry(progress: u32, queue_paused: bool, started: bool) -> QueueEntry {
    QueueEntry { complete: false, paused: queue_paused, queue_paused, started, progress }
}

#[test]
fn the_queue_keeps_the_furthest() {
    let mut list = vec![
        entry(10, false, true),
        entry(30, true, true),
        entry(20, false, false),
        entry(30, false, true),
    ];
    assert_eq!(
        enforce_queue(&list, 2),
        vec![QueueAction::Queue, QueueAction::Resume, QueueAction::Queue, QueueAction::Keep]
    );
    assert_eq!(
        enforce_queue(&list, 3),
        vec![QueueAction::Queue, QueueAction::Resume, QueueAction::Start, QueueAction::Keep]
    );
    assert_eq!(
        enforce_queue(&list, 0),
        vec![QueueAction::Keep, QueueAction::Resume, QueueAction::Keep, QueueAction::Keep]
    );
    list[1].complete = true;
    list[3].paused = true;
    assert_eq!(
        enforce_queue(&list, 1),
        vec![QueueAction::Queue, QueueAction::Resume, QueueAction::Start, QueueAction::Keep]
    );
    list[1].started = false;
    assert_eq!(enforce_queue(&list, 0)[1], QueueAction::Start);
}

#[test]
fn torrents_wait_for_the_user() {
    let mut q = Vec::new();
    queue_torrent_bytes(&mut q, torrent_bytes());
    queue_torrent_bytes(&mut q, b"junk".to_vec());
    assert_eq!(q.len(), 1);
    let all = drain_pending_intents(&mut q);
    assert!(q.is_empty());
    assert_eq!(all[0].name, "file.bin");
    assert_eq!(all[0].total_size, 40000);
    assert_eq!(all[0].suggested_dir, "/sdcard/Retorrent/downloads");
    assert_eq!(all[0].data, torrent_bytes());
    assert!(PendingTorrent::from_bytes(b"i1e".to_vec(), "d").is_err());
    assert_eq!(
        checked_priorities(&vec![true, false]),
        vec![FilePriority::Normal, FilePriority::Skip]
    );
}

#[test]
fn torrents_wait_in_the_dialog() {
    let offered = |dir: &str| PendingTorrent::from_bytes(torrent_bytes(), dir).unwrap();
    let mut d = AddDialog::new(Vec::new());
    assert!(!d.is_open());
    assert!(!d.advance());
    d.offer(vec![offered("/a")]);
    assert!(d.is_open());
    assert_eq!((d.path.as_str(), d.checks.clone()), ("/a", vec![true]));
    d.check(0, false);
    d.check(5, false);
    assert_eq!(d.priorities(), vec![FilePriority::Skip]);
    d.offer(vec![offered("/b")]);
    assert_eq!((d.path.as_str(), d.checks.clone()), ("/a", vec![false]));
    d.check_all(true);
    assert_eq!(d.priorities(), vec![FilePriority::Normal]);
    assert!(d.advance());
    assert_eq!((d.path.as_str(), d.checks.clone()), ("/b", vec![true]));
    assert!(!d.advance());
    assert_eq!((d.path.as_str(), d.checks.len()), ("", 0));
}

#[test]
fn peers_are_listed_in_order() {
    let s = PeerStats { downloaded: 0, am_choking: true, peer_interested: false };
    let mut t = PeerTable::new();
    for a in [3, 1, 2] {
        t.insert(peer(a), s);
    }
    t.insert(peer(1), PeerStats { downloaded: 9, ..s });
    assert_eq!((t.at(0).0, t.at(1).0, t.at(2).0), (peer(3), peer(1), peer(2)));
    assert_eq!(t.at(1).1.downloaded, 9);
    t.remove(peer(3));
    assert_eq!((t.len(), t.at(0).0, t.at(1).0), (2, peer(1), peer(2)));
}

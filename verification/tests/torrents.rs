use retorrent::error::TorrentError;
use retorrent::metainfo::{FileInfo, MetaInfo};
use retorrent::piece::{PieceCollector, PieceManager};
use retorrent::rounding::is_past_nine_tenths;
use retorrent::storage::cache::{cache_entries, ReadCache};
use retorrent::storage::layout::{check_files, file_spans, is_written, piece_start, FileSpan};
use retorrent::types::{base32_decode, FilePriority, InfoHash, MagnetLink, PeerId, RateLimiter, TorrentState};
use retorrent::ui::rows::shown_trackers;
use retorrent::webseed::WebseedSource;
use std::sync::Arc;

fn single_file_meta() -> MetaInfo {
    MetaInfo {
        info_hash: InfoHash([0; 20]),
        name: "movie.mp4".to_string(),
        piece_length: 256 * 1024,
        pieces: vec![[0; 20]; 4],
        files: vec![FileInfo { path: "movie.mp4".to_string(), length: 1024 * 1024, offset: 0 }],
        total_size: 1024 * 1024,
        announce: None,
        announce_list: vec![],
        url_list: vec!["https://example.com/seed/".to_string()],
        comment: None,
        created_by: None,
        creation_date: None,
        is_private: false,
    }
}

fn multi_file_meta() -> MetaInfo {
    MetaInfo {
        info_hash: InfoHash([0; 20]),
        name: "BigBuckBunny_124".to_string(),
        piece_length: 524288,
        pieces: vec![[0; 20]; 10],
        files: vec![
            FileInfo { path: "BigBuckBunny_124/readme.txt".to_string(), length: 100, offset: 0 },
            FileInfo { path: "BigBuckBunny_124/movie.mp4".to_string(), length: 1000, offset: 100 },
        ],
        total_size: 1100,
        announce: None,
        announce_list: vec![],
        url_list: vec!["https://archive.org/download/".to_string()],
        comment: None,
        created_by: None,
        creation_date: None,
        is_private: false,
    }
}

#[test]
fn single_file_webseed_url() {
    let m = single_file_meta();
    assert_eq!(
        m.webseed_url_for("https://example.com/seed/", "movie.mp4"),
        "https://example.com/seed/movie.mp4"
    );
}

#[test]
fn single_file_webseed_url_normalizes_trailing_slash() {
    let m = single_file_meta();
    assert_eq!(
        m.webseed_url_for("https://example.com/seed", "movie.mp4"),
        "https://example.com/seed/movie.mp4"
    );
}

#[test]
fn multi_file_webseed_url_uses_info_name_as_root() {
    let m = multi_file_meta();
    assert_eq!(
        m.webseed_url_for("https://archive.org/download/", "BigBuckBunny_124/movie.mp4"),
        "https://archive.org/download/BigBuckBunny_124/movie.mp4"
    );
}

#[test]
fn private_torrents_skip_webseed() {
    let mut m = single_file_meta();
    m.is_private = true;
    assert!(m.is_private);
    assert!(!m.url_list.is_empty());
    let source = WebseedSource { meta: m };
    assert!(!source.may_run());
}

#[test]
fn piece_split_single_file() {
    let m = single_file_meta();
    let source = WebseedSource { meta: m };
    let chunks = source.split_piece_into_file_chunks(0, 256 * 1024).expect("chunks");
    assert_eq!(chunks.len(), 1);
    assert_eq!(chunks[0].file_offset, 0);
    assert_eq!(chunks[0].len, 256 * 1024);
}

#[test]
fn file_priority_construction_succeeds() {
    let _ = FilePriority::Normal;
}

#[test]
fn piece_split_over_files() {
    let source = WebseedSource { meta: multi_file_meta() };
    assert!(source.may_run());
    let chunks = source.split_piece_into_file_chunks(90, 30).unwrap();
    assert_eq!(chunks.len(), 2);
    assert_eq!(chunks[0].url, "https://archive.org/download/BigBuckBunny_124/readme.txt");
    assert_eq!((chunks[0].file_offset, chunks[0].len), (90, 10));
    assert_eq!((chunks[1].file_offset, chunks[1].len), (0, 20));
    assert_eq!(WebseedSource::range_header(&chunks[0]), "bytes=90-99");
    assert_eq!(
        source.split_piece_into_file_chunks(5000, 10).unwrap_err(),
        "piece did not map to any file"
    );
    let mut m = multi_file_meta();
    m.url_list.clear();
    let none = WebseedSource { meta: m };
    assert_eq!(none.split_piece_into_file_chunks(0, 10).unwrap_err(), "no webseed url available");
}

#[test]
fn test_magnet_hex() {
    let uri = "magnet:?xt=urn:btih:da39a3ee5e6b4b0d3255bfef95601890afd80709&dn=Test";
    let m = MagnetLink::parse(uri).unwrap();
    assert_eq!(m.display_name.as_deref(), Some("Test"));
}

#[test]
fn test_magnet_with_trackers() {
    let uri = "magnet:?xt=urn:btih:da39a3ee5e6b4b0d3255bfef95601890afd80709\
               &tr=http%3A%2F%2Ftracker.example.com%2Fannounce\
               &tr=udp%3A%2F%2Ftracker2.example.com%3A6969";
    let m = MagnetLink::parse(uri).unwrap();
    assert_eq!(m.trackers.len(), 2);
    assert_eq!(m.trackers[0], "http://tracker.example.com/announce");
    assert_eq!(m.trackers[1], "udp://tracker2.example.com:6969");
}

#[test]
fn test_infohash_hex_roundtrip() {
    let hash = InfoHash([0xAB; 20]);
    let hex_str = hash.to_hex();
    let back = InfoHash::from_hex(&hex_str).unwrap();
    assert_eq!(hash, back);
}

#[test]
fn hashes_in_hexadecimal() {
    let h = InfoHash([0x0f; 20]);
    assert_eq!(h.to_hex(), "0f0f0f0f0f0f0f0f0f0f0f0f0f0f0f0f0f0f0f0f");
    assert_eq!(InfoHash::from_hex("0F"), None);
    assert_eq!(InfoHash::from_hex("zz0f0f0f0f0f0f0f0f0f0f0f0f0f0f0f0f0f0f0f"), None);
    assert_eq!(InfoHash::from_bytes(&[1, 2]), None);
    assert_eq!(h.distance(&h), InfoHash([0; 20]));
    assert_eq!(h.distance(&InfoHash([0xff; 20])), InfoHash([0xf0; 20]));
}

#[test]
fn magnets_in_base32() {
    let b = base32_decode("AAAQ").unwrap();
    assert_eq!(b, vec![0, 1]);
    assert_eq!(base32_decode("aaaq"), Some(vec![0, 1]));
    assert_eq!(base32_decode("A1"), None);
    let uri = "magnet:?xt=urn:btih:aaaaaaaaaaaaaaaaaaaaaaaaaaaaaaab";
    let m = MagnetLink::parse(uri).unwrap();
    let mut expected = [0u8; 20];
    expected[19] = 1;
    assert_eq!(m.info_hash.0, expected);
}

#[test]
fn links_that_are_no_magnets() {
    match MagnetLink::parse("http://x") {
        Err(TorrentError::MagnetParse(m)) => assert_eq!(m, "Not a magnet URI"),
        _ => panic!("wrong result"),
    }
    match MagnetLink::parse("magnet:?dn=x") {
        Err(e) => assert_eq!(e.message(), "Magnet parse error: No valid info hash found"),
        _ => panic!("wrong result"),
    }
}

#[test]
fn peer_ids_name_the_client() {
    let a = PeerId::generate();
    let b = PeerId::generate();
    assert_eq!(&a.0[..8], b"-RE0100-");
    assert_ne!(a.0, b.0);
    assert_eq!(TorrentState::FetchingMetadata.label(), "Fetching Metadata");
    assert_eq!(FilePriority::High.label(), "High");
}

#[test]
fn rates_are_limited() {
    let mut l = RateLimiter::new(100_000);
    assert!(l.try_consume(100_000, 0));
    assert!(!l.try_consume(1, 0));
    assert!(l.try_consume(30, 30));
    let mut small = RateLimiter::new(100);
    assert!(small.try_consume(65536, 0));
    assert!(!small.try_consume(1, 0));
    let mut none = RateLimiter::new(0);
    assert!(none.try_consume(u64::MAX, 0));
}

#[test]
fn errors_as_text() {
    let s = || "x".to_string();
    assert_eq!(TorrentError::Tracker(s()).message(), "Tracker error: x");
    assert_eq!(TorrentError::Peer(s()).message(), "Peer error: x");
    assert_eq!(TorrentError::Io(s()).message(), "IO error: x");
    assert_eq!(TorrentError::Network(s()).message(), "Network error: x");
    assert_eq!(TorrentError::Storage(s()).message(), "Storage error: x");
    assert_eq!(TorrentError::Timeout.message(), "Timeout");
    assert_eq!(TorrentError::ResumeData(s()).message(), "Resume data error: x");
}

#[test]
fn pieces_lie_in_files() {
    let m = multi_file_meta();
    assert!(check_files(&m.files));
    let spans = file_spans(&m.files, 90, 30);
    assert_eq!(
        spans,
        vec![
            FileSpan { file: 0, file_offset: 90, start: 0, len: 10 },
            FileSpan { file: 1, file_offset: 0, start: 10, len: 20 },
        ]
    );
    assert!(!is_written(&spans[0], &[FilePriority::Skip, FilePriority::Normal]));
    assert!(is_written(&spans[1], &[FilePriority::Skip, FilePriority::Normal]));
    assert_eq!(piece_start(3, 10), Some(30));
    assert_eq!(piece_start(2, u64::MAX), None);
}

#[test]
fn written_pieces_are_read_back() {
    let m = multi_file_meta();
    let mut disk: Vec<Vec<u8>> = m.files.iter().map(|f| vec![0u8; f.length as usize]).collect();
    let data: Vec<u8> = (0..200u8).collect();
    let spans = file_spans(&m.files, 60, data.len());
    for s in &spans {
        let at = s.file_offset as usize;
        disk[s.file][at..at + s.len].copy_from_slice(&data[s.start..s.start + s.len]);
    }
    let mut back = Vec::new();
    for s in &spans {
        let at = s.file_offset as usize;
        back.extend_from_slice(&disk[s.file][at..at + s.len]);
    }
    assert_eq!(back, data);
}

#[test]
fn read_pieces_are_kept() {
    assert_eq!(cache_entries(256, 262144), 1024);
    assert_eq!(cache_entries(1, 1048576), 64);
    assert_eq!(cache_entries(5, 0), 128);
    let mut c = ReadCache::new(1, 1048576);
    for i in 0..65u32 {
        c.store(i, Arc::new(vec![i as u8]));
    }
    assert!(c.lookup(0).is_none());
    assert_eq!(*c.lookup(1).unwrap(), vec![1u8]);
    c.store(70, Arc::new(vec![70]));
    assert!(c.lookup(2).is_none());
    assert!(c.lookup(1).is_some());
    c.forget(1);
    assert!(c.lookup(1).is_none());
}

#[test]
fn blocks_are_collected() {
    let mut c = PieceCollector::new(3, 40000, [0; 20]);
    assert_eq!(c.num_blocks, 3);
    assert_eq!(c.missing_blocks(), vec![(0, 16384), (16384, 16384), (32768, 7232)]);
    let mut first = c.claim_blocks(2, 100);
    assert_eq!(first.len(), 2);
    let second = c.claim_blocks(2, 100);
    assert_eq!(second.len(), 1);
    first.extend(second);
    first.sort();
    assert_eq!(first, vec![(0, 16384), (16384, 16384), (32768, 7232)]);
    assert!(c.claim_blocks(5, 100).is_empty());
    assert_eq!(c.claim_blocks(5, 100 + 30_000_000_000).len(), 3);
    c.release(&vec![0]);
    assert_eq!(c.claim_blocks(5, 101), vec![(0, 16384)]);
    assert!(!c.add_block(32768, vec![3; 7232]));
    assert!(!c.add_block(0, vec![1; 16384]));
    assert!(c.assemble().is_none());
    assert!(c.add_block(16384, vec![2; 16384]));
    let whole = c.assemble().unwrap();
    assert_eq!(whole.len(), 40000);
    assert_eq!((whole[0], whole[16384], whole[39999]), (1, 2, 3));
}

#[test]
fn pieces_are_selected() {
    let mut pm = PieceManager::new(4, 10, 35, vec![[0; 20]; 4]);
    assert_eq!((pm.piece_size(0), pm.piece_size(3)), (10, 5));
    pm.mark_have_piece(1);
    pm.mark_have_piece(1);
    pm.mark_have_piece(2);
    let order = pm.select_piece(&[0b0110_0000]);
    assert_eq!(order, vec![2, 1]);
    assert!(pm.try_start_piece(2).is_some());
    assert!(pm.try_start_piece(2).is_none());
    assert_eq!(pm.select_piece(&[0b0110_0000]), vec![1]);
    pm.mark_piece_complete(2);
    assert!(pm.have_piece(2));
    assert_eq!(pm.completed_count(), 1);
    assert_eq!(pm.have_bitfield(), vec![0b0010_0000]);
    assert_eq!(pm.get_have_vec(), vec![false, false, true, false]);
    let files = vec![
        FileInfo { path: "a".to_string(), length: 20, offset: 0 },
        FileInfo { path: "b".to_string(), length: 15, offset: 20 },
    ];
    let prios = [FilePriority::Skip, FilePriority::High];
    assert!(pm.can_place(&files, &prios));
    pm.apply_file_priorities(&files, &prios);
    assert!(pm.piece_is_skipped(0));
    assert!(!pm.piece_is_skipped(3));
    pm.load_have(&[true, true, true, true]);
    assert!(pm.is_complete());
}

#[test]
fn last_stage_of_a_download() {
    let past = |c: u32, n: u32| c as f32 / n as f32 > 0.90f32;
    for n in 1..600u32 {
        for c in 0..=n {
            assert_eq!(is_past_nine_tenths(c, n), past(c, n), "{} of {}", c, n);
        }
    }
    for n in [16777217u32, 33554435, 1000000007, 4294967295, 4294967167] {
        let near = (n as u64 * 9 / 10) as u32;
        for c in near - 400..near + 400 {
            assert_eq!(is_past_nine_tenths(c, n), past(c, n), "{} of {}", c, n);
        }
    }
    let mut pm = PieceManager::new(20, 16384, 20 * 16384, vec![[0; 20]; 20]);
    for i in 0..18 {
        pm.mark_piece_complete(i);
    }
    assert!(!pm.is_in_endgame());
    assert!(pm.get_endgame_pieces().is_empty());
    pm.mark_piece_complete(18);
    assert!(pm.is_in_endgame());
    assert_eq!(pm.get_endgame_pieces(), vec![19]);
    assert!(!PieceManager::new(0, 0, 0, Vec::new()).is_in_endgame());
}

#[test]
fn pieces_in_progress_are_joined() {
    let mut pm = PieceManager::new(4, 16384, 4 * 16384, vec![[0; 20]; 4]);
    for i in 0..3 {
        assert!(pm.try_start_piece(i).is_some());
    }
    let all = vec![(0, 1, 4), (1, 2, 4), (2, 4, 4)];
    assert_eq!(pm.pick_in_progress_for_peer(&[0b1110_0000], &all), Some(1));
    assert_eq!(pm.pick_in_progress_for_peer(&[0b0010_0000], &all), None);
    pm.abort_piece(1);
    assert_eq!(pm.pick_in_progress_for_peer(&[0b1110_0000], &all), Some(0));
}

#[test]
fn pieces_wait_for_all_blocks() {
    let mut c = PieceCollector::new(0, 3 * 16384, [0; 20]);
    c.add_block(0, vec![1; 16384]);
    c.add_block(32768, vec![3; 16384]);
    assert_eq!(c.assemble(), None);
    c.add_block(16384, vec![2; 16384]);
    assert_eq!(c.assemble().unwrap().len(), 3 * 16384);
}

#[test]
fn blocks_in_any_order_make_the_piece() {
    let data: Vec<u8> = (0..40000u32).map(|i| (i % 251) as u8).collect();
    let block = |o: usize| data[o..(o + 16384).min(data.len())].to_vec();
    for order in [[0usize, 16384, 32768], [32768, 0, 16384], [16384, 32768, 0]] {
        let mut c = PieceCollector::new(0, data.len() as u64, [0; 20]);
        for (n, o) in order.iter().enumerate() {
            assert_eq!(c.assemble(), None);
            assert_eq!(c.add_block(*o as u32, block(*o)), n == 2);
            assert_eq!(c.add_block(*o as u32, block(*o)), n == 2);
        }
        assert_eq!(c.assemble(), Some(data.clone()));
    }
}

#[test]
fn trackers_are_shown_as_they_stand() {
    let mut meta = single_file_meta();
    meta.announce = Some("a".to_string());
    meta.announce_list =
        vec![vec!["a".to_string(), "b".to_string()], vec![], vec!["b".to_string()]];
    assert_eq!(shown_trackers(&meta), vec!["a", "a", "b", "b"]);
    meta.announce = None;
    assert_eq!(shown_trackers(&meta), vec!["a", "b", "b"]);
}

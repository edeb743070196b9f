use retorrent::net::{Ipv4Addr, SocketAddrV4};
use retorrent::tracker::http::{announce_url, parse_answer, parse_dotted, urlencoding_bytes};
use retorrent::tracker::udp::{
    announce_request, announce_with_key, connect_request, endpoint, read_answer, read_connection,
    tracker_endpoint, transaction_id,
};
use retorrent::tracker::{
    next_event, next_interval, tracker_protocol, Announce, AnnounceRound, Protocol, TrackerResponse,
};
use retorrent::types::{InfoHash, PeerId};

fn announce(event: Option<&str>) -> Announce {
    Announce {
        info_hash: InfoHash([0x41; 20]),
        peer_id: PeerId([0x20; 20]),
        port: 6881,
        uploaded: 1,
        downloaded: 2,
        left: 3,
        event: event.map(|e| e.to_string()),
    }
}

fn peer(a: u8, port: u16) -> SocketAddrV4 {
    SocketAddrV4::new(Ipv4Addr::new(1, 2, 3, a), port)
}

#[test]
fn announcements_as_urls() {
    assert_eq!(urlencoding_bytes(b"aZ0-_.~ \xff"), "aZ0-_.~%20%FF");
    let url = announce_url("http://t/a", &announce(Some("started")));
    let spaces = "%20".repeat(20);
    let expected = format!(
        "http://t/a?info_hash={}&peer_id={}&port=6881&uploaded=1&downloaded=2&left=3&compact=1&numwant=100&event=started",
        "A".repeat(20),
        spaces
    );
    assert_eq!(url, expected);
    assert!(announce_url("http://t/a", &announce(Some("paused"))).ends_with("&event=paused"));
    let url = announce_url("http://t/a?k=1", &announce(None));
    assert!(url.starts_with("http://t/a?k=1&info_hash="));
    assert!(url.ends_with("&numwant=100"));
}

#[test]
fn answers_of_trackers() {
    let r = parse_answer(b"d8:intervali1800e5:peers12:\x01\x02\x03\x04\x1a\xe1\x01\x02\x03\x05\x00\x01e")
        .unwrap();
    assert_eq!(r.interval, 1800);
    assert_eq!(r.peers, vec![peer(4, 6881), peer(5, 1)]);
    let e = parse_answer(b"d14:failure reason4:gonee").unwrap_err();
    assert_eq!(e.message(), "Tracker error: gone");
    assert!(parse_answer(b"junk").is_err());
    let d = parse_answer(b"d8:intervali5e5:peersld2:ip7:1.2.3.44:porti80eeee").unwrap();
    assert_eq!(d.peers, vec![peer(4, 80)]);
    assert_eq!(parse_dotted("1.2.3.4"), Some(Ipv4Addr::new(1, 2, 3, 4)));
    assert_eq!(parse_dotted("1.2.3.256"), None);
    assert_eq!(parse_dotted("1.2.3"), None);
}

#[test]
fn trackers_over_udp() {
    assert_eq!(tracker_endpoint("udp://tracker.example.com:6969/announce").unwrap(), "tracker.example.com:6969");
    assert_eq!(tracker_endpoint("udp://tracker.example.com/announce").unwrap(), "tracker.example.com:80");
    assert!(tracker_endpoint("no url").is_err());
    assert_eq!(endpoint(None, Some(5)), "127.0.0.1:5");
    assert_eq!(
        connect_request(0x01020304),
        vec![0, 0, 4, 0x17, 0x27, 0x10, 0x19, 0x80, 0, 0, 0, 0, 1, 2, 3, 4]
    );
    let answer = [0, 0, 0, 0, 1, 2, 3, 4, 0, 0, 0, 0, 0, 0, 0, 9];
    assert_eq!(read_connection(&answer, 0x01020304).unwrap(), 9);
    assert_eq!(
        read_connection(&answer, 5).unwrap_err().message(),
        "Tracker error: Transaction ID mismatch on connect"
    );
    assert_eq!(
        read_connection(&[0, 0, 0, 3, 0, 0, 0, 0], 0).unwrap_err().message(),
        "Tracker error: Connect action failed"
    );
    assert!(read_connection(&[0, 0], 0).is_err());
}

#[test]
fn announcements_over_udp() {
    let a = announce(Some("completed"));
    let m = announce_with_key(&a, 7, 8, 9);
    assert_eq!(m.len(), 98);
    assert_eq!(&m[..16], &[0, 0, 0, 0, 0, 0, 0, 7, 0, 0, 0, 1, 0, 0, 0, 8]);
    assert_eq!(&m[56..80], &[0, 0, 0, 0, 0, 0, 0, 2, 0, 0, 0, 0, 0, 0, 0, 3, 0, 0, 0, 0, 0, 0, 0, 1]);
    assert_eq!(&m[80..98], &[0, 0, 0, 1, 0, 0, 0, 0, 0, 0, 0, 9, 0, 0, 0, 100, 26, 225]);
    assert_eq!(announce_request(&a, 7, 8)[..88], m[..88]);
    for (name, number) in [(Some("started"), 2), (Some("stopped"), 3), (Some("paused"), 0), (None, 0)] {
        assert_eq!(announce_with_key(&announce(name), 7, 8, 9)[83], number);
    }
    let answer = [0, 0, 0, 1, 0, 0, 0, 8, 0, 0, 7, 8, 0, 0, 0, 5, 0, 0, 0, 6, 1, 2, 3, 4, 0, 80];
    let r = read_answer(&answer, 8).unwrap();
    assert_eq!((r.interval, r.leechers, r.seeders), (1800, Some(5), Some(6)));
    assert_eq!(r.peers, vec![peer(4, 80)]);
    assert_eq!(
        read_answer(&answer, 9).unwrap_err().message(),
        "Tracker error: Transaction ID mismatch on announce"
    );
    assert_eq!(
        read_answer(&answer[..25], 8).unwrap_err().message(),
        "Tracker error: UDP tracker response peer data length 5 not a multiple of 6"
    );
    let _ = transaction_id();
}

#[test]
fn trackers_by_protocol() {
    assert_eq!(tracker_protocol("https://x").unwrap(), Protocol::Http);
    assert_eq!(tracker_protocol("udp://x").unwrap(), Protocol::Udp);
    assert_eq!(
        tracker_protocol("wss://x").unwrap_err().message(),
        "Tracker error: Unsupported tracker protocol: wss://x"
    );
    let mut first = true;
    assert_eq!(next_event(&mut first), Some("started".to_string()));
    assert_eq!(next_event(&mut first), None);
    let r = TrackerResponse {
        interval: 10,
        min_interval: Some(20),
        peers: vec![],
        seeders: None,
        leechers: None,
        warning: None,
    };
    assert_eq!(next_interval(&r), 20);
}

#[test]
fn trackers_are_tried_until_one_answers() {
    let mut r = AnnounceRound::new(3);
    assert_eq!(r.next_tracker(), Some(0));
    assert_eq!(r.next_tracker(), Some(1));
    r.succeed();
    assert_eq!(r.next_tracker(), None);
    let mut r = AnnounceRound::new(1);
    assert_eq!(r.next_tracker(), Some(0));
    assert_eq!(r.next_tracker(), None);
    assert_eq!(AnnounceRound::new(0).next_tracker(), None);
}

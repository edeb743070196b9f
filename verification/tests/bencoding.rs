use retorrent::bencode::parser::{extract_info_raw, BencodeParser};
use retorrent::bencode::{BencodeDict, BencodeValue};
use retorrent::error::TorrentError;
use retorrent::metainfo::MetaInfo;
use sha1::{Digest, Sha1};

fn dict(entries: Vec<(&str, BencodeValue)>) -> BencodeValue {
    let mut d = BencodeDict::new();
    for (k, v) in entries {
        d.insert(k.to_string(), v);
    }
    BencodeValue::Dict(d)
}

fn bytes(b: &[u8]) -> BencodeValue {
    BencodeValue::ByteString(b.to_vec())
}

fn text_of(r: Result<BencodeValue, TorrentError>) -> String {
    match r {
        Ok(_) => panic!("parsed"),
        Err(e) => e.message(),
    }
}

#[test]
fn test_parse_integer() {
    let val = BencodeParser::parse(b"i42e").unwrap();
    assert_eq!(val.as_integer(), Some(42));
}

#[test]
fn test_parse_string() {
    let val = BencodeParser::parse(b"4:spam").unwrap();
    assert_eq!(val.as_string(), Some("spam"));
}

#[test]
fn test_parse_list() {
    let val = BencodeParser::parse(b"l4:spami42ee").unwrap();
    let list = val.as_list().unwrap();
    assert_eq!(list.len(), 2);
}

#[test]
fn test_roundtrip() {
    let original = dict(vec![("key", BencodeValue::Integer(123))]);
    let encoded = BencodeParser::encode(&original);
    let decoded = BencodeParser::parse(&encoded).unwrap();
    assert_eq!(original, decoded);
}

#[test]
fn test_parse_synthetic_torrent() {
    let info = || {
        dict(vec![
            ("name", bytes(b"testfile")),
            ("piece length", BencodeValue::Integer(16384)),
            ("length", BencodeValue::Integer(16384)),
            ("pieces", BencodeValue::ByteString(vec![0u8; 20])),
        ])
    };
    let info_encoded = BencodeParser::encode(&info());
    let root = dict(vec![
        ("announce", bytes(b"http://tracker.test/announce")),
        ("info", BencodeValue::ByteString(info_encoded)),
    ]);
    let _data = BencodeParser::encode(&root);

    let root2 = dict(vec![("announce", bytes(b"http://tracker.test/announce")), ("info", info())]);
    let torrent_data = BencodeParser::encode(&root2);

    let parsed = BencodeParser::parse(&torrent_data).expect("Should parse");
    let d = parsed.as_dict().expect("Root should be a dict");
    assert!(d.contains_key("info"));
    assert!(d.contains_key("announce"));
}

#[test]
fn test_extract_info_raw_synthetic() {
    let info = || {
        dict(vec![
            ("name", bytes(b"test")),
            ("piece length", BencodeValue::Integer(16384)),
            ("length", BencodeValue::Integer(16384)),
            ("pieces", BencodeValue::ByteString(vec![0u8; 20])),
        ])
    };
    let info_encoded = BencodeParser::encode(&info());
    let root = dict(vec![("announce", bytes(b"http://t.test/a")), ("info", info())]);
    let data = BencodeParser::encode(&root);

    let info_raw = extract_info_raw(&data).expect("Should find info dict");
    assert_eq!(&info_raw[..], &info_encoded[..]);
}

fn make_test_torrent_bytes() -> Vec<u8> {
    let info = dict(vec![
        ("name", bytes(b"testfile")),
        ("piece length", BencodeValue::Integer(16384)),
        ("length", BencodeValue::Integer(32768)),
        ("pieces", BencodeValue::ByteString(vec![0u8; 40])),
    ]);
    let root = dict(vec![
        ("announce", bytes(b"http://tracker.test/announce")),
        ("comment", bytes(b"test comment")),
        ("created by", bytes(b"test")),
        ("creation date", BencodeValue::Integer(1234567890)),
        ("info", info),
    ]);
    BencodeParser::encode(&root)
}

#[test]
fn test_parse_metainfo() {
    let data = make_test_torrent_bytes();
    let meta = MetaInfo::from_bytes(&data).expect("Should parse metainfo");

    assert_eq!(meta.name, "testfile");
    assert!(meta.total_size > 0);
    assert_eq!(meta.pieces.len(), 2);
    assert_eq!(meta.piece_length, 16384);
    assert_eq!(meta.files.len(), 1);
    assert_eq!(meta.announce.as_deref(), Some("http://tracker.test/announce"));
    assert_eq!(meta.comment.as_deref(), Some("test comment"));

    let mut hasher = Sha1::new();
    let info_raw = extract_info_raw(&data).unwrap();
    hasher.update(info_raw);
    let expected_hash = hasher.finalize();
    assert_eq!(&meta.info_hash.0, expected_hash.as_slice());
}

#[test]
fn test_metainfo_piece_count() {
    let data = make_test_torrent_bytes();
    let meta = MetaInfo::from_bytes(&data).expect("Should parse metainfo");

    let num_pieces = meta.num_pieces();
    assert_eq!(num_pieces, 2);
    assert_eq!(num_pieces as usize, meta.pieces.len());

    let mut calculated_size = 0u64;
    for i in 0..num_pieces {
        calculated_size += meta.piece_size(i);
    }
    assert_eq!(calculated_size, meta.total_size);
}

#[test]
fn integers_read_and_refused() {
    assert_eq!(BencodeParser::parse(b"i-7e").unwrap().as_integer(), Some(-7));
    assert_eq!(BencodeParser::parse(b"i0e").unwrap().as_integer(), Some(0));
    assert_eq!(
        BencodeParser::parse(b"i9223372036854775807e").unwrap().as_integer(),
        Some(i64::MAX)
    );
    assert_eq!(
        text_of(BencodeParser::parse(b"i-0e")),
        "Bencode parse error: Invalid integer format: -0"
    );
    assert_eq!(
        text_of(BencodeParser::parse(b"i03e")),
        "Bencode parse error: Invalid integer format: 03"
    );
    assert_eq!(text_of(BencodeParser::parse(b"i42")), "Bencode parse error: Missing 'e' for integer");
    assert!(BencodeParser::parse(b"i9223372036854775808e").is_err());
}

#[test]
fn malformed_data_is_refused() {
    assert_eq!(text_of(BencodeParser::parse(b"")), "Bencode parse error: Unexpected end of data");
    assert_eq!(
        text_of(BencodeParser::parse(b"x")),
        "Bencode parse error: Unexpected byte: 120 at pos 0"
    );
    assert_eq!(text_of(BencodeParser::parse(b"4spam")), "Bencode parse error: Missing ':' for string");
    assert_eq!(
        text_of(BencodeParser::parse(b"5:spam")),
        "Bencode parse error: String extends past end of data"
    );
    assert_eq!(text_of(BencodeParser::parse(b"li1e")), "Bencode parse error: Missing 'e' for list");
    assert_eq!(text_of(BencodeParser::parse(b"d1:ai1e")), "Bencode parse error: Missing 'e' for dict");
    let deep: Vec<u8> = vec![b'l'; 2000];
    assert_eq!(text_of(BencodeParser::parse(&deep)), "Bencode parse error: Max parse depth exceeded");
    assert_eq!(
        extract_info_raw(b"de").map(|_| ()).unwrap_err().message(),
        "Bencode parse error: No info dict found"
    );
    assert_eq!(
        extract_info_raw(b"le").map(|_| ()).unwrap_err().message(),
        "Bencode parse error: Root not a dict"
    );
}

#[test]
fn dictionaries_are_written_in_order() {
    let v = dict(vec![("b", BencodeValue::Integer(2)), ("a", BencodeValue::Integer(1))]);
    assert_eq!(BencodeParser::encode(&v), b"d1:ai1e1:bi2ee");
    let last = BencodeParser::parse(b"d1:ai1e1:ai5ee").unwrap();
    assert_eq!(last.dict_get("a").unwrap().as_integer(), Some(5));
}

#[test]
fn keys_that_are_no_text_are_replaced() {
    let v = BencodeParser::parse(b"d2:\xff\xfei1ee").unwrap();
    let d = v.as_dict().unwrap();
    assert_eq!(d.len(), 1);
    assert_eq!(d.key_at(0), "\u{fffd}\u{fffd}");
}

#[test]
fn multi_file_torrent() {
    let file = |name: &[u8], len: i64| {
        dict(vec![
            ("length", BencodeValue::Integer(len)),
            ("path", BencodeValue::List(vec![bytes(b"sub"), bytes(name)])),
        ])
    };
    let info = dict(vec![
        ("name", bytes(b"root")),
        ("piece length", BencodeValue::Integer(10)),
        ("pieces", BencodeValue::ByteString(vec![7u8; 40])),
        ("files", BencodeValue::List(vec![file(b"a", 3), file(b"b", 12)])),
        ("private", BencodeValue::Integer(1)),
    ]);
    let data = BencodeParser::encode(&dict(vec![("info", info)]));
    let meta = MetaInfo::from_bytes(&data).unwrap();
    assert_eq!(meta.total_size, 15);
    assert_eq!(meta.files.len(), 2);
    assert_eq!(meta.files[0].path, "root/sub/a");
    assert_eq!(meta.files[1].path, "root/sub/b");
    assert_eq!((meta.files[1].offset, meta.files[1].length), (3, 12));
    assert!(meta.is_private);
    assert_eq!(meta.piece_size(0), 10);
    assert_eq!(meta.piece_size(1), 5);
}

#[test]
fn torrents_without_their_parts_are_refused() {
    let e = MetaInfo::from_bytes(b"d4:infoi1ee").unwrap_err();
    assert_eq!(e.message(), "Invalid metainfo: info not a dict");
    let e = MetaInfo::from_bytes(b"i1e").unwrap_err();
    assert_eq!(e.message(), "Bencode parse error: Root not a dict");
}

#[test]
fn truncated_data_is_refused() {
    let v = dict(vec![
        ("a", BencodeValue::List(vec![BencodeValue::Integer(-12), bytes(b"xyz")])),
        ("b", dict(vec![("c", bytes(b""))])),
    ]);
    let enc = BencodeParser::encode(&v);
    for n in 0..enc.len() {
        assert!(matches!(BencodeParser::parse(&enc[..n]), Err(TorrentError::BencodeParse(_))));
    }
    assert_eq!(BencodeParser::parse(&enc).unwrap(), v);
}

#[test]
fn encodings_are_told_apart() {
    let mut deep = BencodeValue::List(vec![]);
    for _ in 0..200 {
        deep = BencodeValue::List(vec![deep]);
    }
    let values = vec![
        BencodeValue::Integer(1),
        BencodeValue::Integer(12),
        bytes(b"1"),
        bytes(b"12"),
        BencodeValue::List(vec![]),
        BencodeValue::List(vec![BencodeValue::List(vec![])]),
        dict(vec![]),
        dict(vec![("a", BencodeValue::Integer(1))]),
        deep,
    ];
    for (i, a) in values.iter().enumerate() {
        for (j, b) in values.iter().enumerate() {
            let starts = BencodeParser::encode(b).starts_with(&BencodeParser::encode(a));
            assert_eq!(starts, i == j);
        }
        assert_eq!(&a.clone(), a);
    }
}

#[test]
fn torrents_without_info_are_refused() {
    assert!(extract_info_raw(b"d1:ai1e4:name1:xe").is_err());
    assert!(extract_info_raw(b"de").is_err());
    assert_eq!(extract_info_raw(b"d1:ai1e4:infoi5eetail").unwrap(), b"i5e");
}

use bittorrent_core::bencode::{lt_bytes, Bencode, BencodeError};
use bittorrent_core::metainfo::{Info, InfoError, TorrentError, TorrentInfo};
use bittorrent_core::types::PieceHash;
use bittorrent_core::torrent_parser::{ParseError, TorrentParser};
use sha1::{Digest, Sha1};

fn dict(entries: Vec<(&str, Bencode)>) -> Bencode {
    Bencode::Dict(entries.into_iter().map(|(k, v)| (k.as_bytes().to_vec(), v)).collect())
}

fn byte_string(text: &str) -> Bencode {
    Bencode::Bytes(text.as_bytes().to_vec())
}

#[test]
fn values_encode_as_bencode_says() {
    assert_eq!(Bencode::Int(0).encode(), b"i0e");
    assert_eq!(Bencode::Int(42).encode(), b"i42e");
    assert_eq!(Bencode::Int(-7).encode(), b"i-7e");
    assert_eq!(Bencode::Int(i64::MAX).encode(), b"i9223372036854775807e");
    assert_eq!(Bencode::Int(i64::MIN).encode(), b"i-9223372036854775808e");
    assert_eq!(byte_string("spam").encode(), b"4:spam");
    assert_eq!(byte_string("").encode(), b"0:");
    assert_eq!(Bencode::Bytes(vec![0u8; 12]).encode()[..3], *b"12:");
    assert_eq!(Bencode::List(vec![]).encode(), b"le");
    assert_eq!(
        Bencode::List(vec![byte_string("spam"), Bencode::Int(3), Bencode::List(vec![])]).encode(),
        b"l4:spami3elee"
    );
    assert_eq!(
        dict(vec![("cow", byte_string("moo")), ("spam", Bencode::List(vec![Bencode::Int(1)]))]).encode(),
        b"d3:cow3:moo4:spamli1eee"
    );
}

#[test]
fn encodings_decode_to_the_same_value() {
    let values = vec![
        Bencode::Int(0),
        Bencode::Int(-1),
        Bencode::Int(i64::MIN),
        Bencode::Int(i64::MAX),
        byte_string(""),
        byte_string("hello world"),
        Bencode::Bytes((0..=255).collect()),
        Bencode::List(vec![Bencode::List(vec![Bencode::List(vec![])]), Bencode::Int(5)]),
        dict(vec![
            ("a", Bencode::Int(1)),
            ("ab", dict(vec![])),
            ("b", Bencode::List(vec![byte_string("x"), dict(vec![("k", Bencode::Int(-3))])])),
        ]),
    ];
    for value in values {
        let encoded = value.encode();
        assert_eq!(Bencode::decode(&encoded), Ok(value));
    }
}

#[test]
fn malformed_bencode_is_refused() {
    let cases: Vec<(&[u8], BencodeError)> = vec![
        (b"", BencodeError::UnexpectedEnd),
        (b"x", BencodeError::InvalidByte),
        (b"ie", BencodeError::InvalidInteger),
        (b"i-e", BencodeError::InvalidInteger),
        (b"i-0e", BencodeError::InvalidInteger),
        (b"i03e", BencodeError::InvalidInteger),
        (b"i12", BencodeError::InvalidInteger),
        (b"i1x2e", BencodeError::InvalidInteger),
        (b"i9223372036854775808e", BencodeError::IntegerOverflow),
        (b"i-9223372036854775809e", BencodeError::IntegerOverflow),
        (b"i99999999999999999999999999e", BencodeError::IntegerOverflow),
        (b"4spam", BencodeError::InvalidLength),
        (b"04:spam", BencodeError::InvalidLength),
        (b"5:spam", BencodeError::UnexpectedEnd),
        (b"99999999999999999999999999:a", BencodeError::UnexpectedEnd),
        (b"l4:spam", BencodeError::UnexpectedEnd),
        (b"li1e", BencodeError::UnexpectedEnd),
        (b"di1e1:ae", BencodeError::InvalidKey),
        (b"d1:b1:x1:a1:ye", BencodeError::UnsortedKeys),
        (b"d1:a1:x1:a1:ye", BencodeError::UnsortedKeys),
        (b"d1:a", BencodeError::UnexpectedEnd),
        (b"i1ei2e", BencodeError::TrailingData),
        (b"le ", BencodeError::TrailingData),
    ];
    for (data, error) in cases {
        assert_eq!(Bencode::decode(data), Err(error), "{:?}", String::from_utf8_lossy(data));
    }
}

#[test]
fn nesting_is_limited() {
    let deep = |n: usize| {
        let mut data = vec![b'l'; n];
        data.extend(vec![b'e'; n]);
        data
    };
    assert!(Bencode::decode(&deep(64)).is_ok());
    assert_eq!(Bencode::decode(&deep(65)), Err(BencodeError::TooDeep));
    assert_eq!(Bencode::decode(&vec![b'd'; 100_000]), Err(BencodeError::InvalidKey));
    assert_eq!(Bencode::decode(&vec![b'l'; 100_000]), Err(BencodeError::TooDeep));
}

#[test]
fn keys_are_looked_up_in_dictionaries_only() {
    let d = dict(vec![("a", Bencode::Int(1)), ("b", byte_string("two"))]);
    assert_eq!(d.get(b"a"), Some(&Bencode::Int(1)));
    assert_eq!(d.get(b"b"), Some(&byte_string("two")));
    assert_eq!(d.get(b"c"), None);
    assert_eq!(d.get(b""), None);
    assert_eq!(Bencode::List(vec![byte_string("a")]).get(b"a"), None);
    assert_eq!(Bencode::Int(1).get(b"a"), None);
}

#[test]
fn byte_strings_are_ordered_like_words() {
    assert!(lt_bytes(b"", b"a"));
    assert!(!lt_bytes(b"", b""));
    assert!(!lt_bytes(b"a", b""));
    assert!(lt_bytes(b"a", b"ab"));
    assert!(lt_bytes(b"ab", b"b"));
    assert!(!lt_bytes(b"b", b"ab"));
    assert!(!lt_bytes(b"abc", b"abc"));
    assert!(lt_bytes(&[0x7F], &[0x80]));
}

fn sample_info(pieces: &[u8]) -> Bencode {
    dict(vec![
        ("length", Bencode::Int(92063)),
        ("name", byte_string("sample.txt")),
        ("piece length", Bencode::Int(32768)),
        ("pieces", Bencode::Bytes(pieces.to_vec())),
    ])
}

fn sample_torrent(info: Bencode) -> Bencode {
    dict(vec![
        ("announce", byte_string("http://bittorrent-test-tracker.codecrafters.io/announce")),
        ("created by", byte_string("mktorrent 1.1")),
        ("info", info),
    ])
}

#[test]
fn metainfo_is_read_from_bytes() {
    let pieces: Vec<u8> = (0..60).collect();
    let info = sample_info(&pieces);
    let info_bytes = info.encode();
    let data = sample_torrent(info).encode();
    let torrent = TorrentParser::parse(&data).unwrap();
    assert_eq!(torrent.announce, "http://bittorrent-test-tracker.codecrafters.io/announce");
    assert_eq!(torrent.get_announce(), torrent.announce);
    assert!(torrent.announce_list.is_none());
    assert_eq!(torrent.info.length, 92063);
    assert_eq!(torrent.info.name, "sample.txt");
    assert_eq!(torrent.info.piece_length, 32768);
    assert_eq!(torrent.info.pieces.len(), 3);
    assert_eq!(torrent.info.pieces[1].0.to_vec(), (20..40).collect::<Vec<u8>>());
    let expected: [u8; 20] = Sha1::digest(&info_bytes).into();
    assert_eq!(torrent.info_hash.0, expected);
    assert_eq!(torrent.info_hash.to_hex(), hex::encode(expected));
    assert!(torrent.is_valid());
    assert_eq!(torrent.get_total_pieces(), 3);
    assert_eq!(torrent.get_piece_len(2), 92063 - 2 * 32768);
}

#[test]
fn tier_list_is_read_when_it_is_proper() {
    let tiers = Bencode::List(vec![
        Bencode::List(vec![byte_string("http://a/announce"), byte_string("http://b/announce")]),
        Bencode::List(vec![byte_string("http://c/announce")]),
    ]);
    let with = |list: Bencode| {
        dict(vec![
            ("announce", byte_string("http://a/announce")),
            ("announce-list", list),
            ("info", sample_info(&[0u8; 60])),
        ])
    };
    let torrent = TorrentInfo::try_from(&with(tiers)).unwrap();
    assert_eq!(
        torrent.announce_list,
        Some(vec![
            vec!["http://a/announce".to_string(), "http://b/announce".to_string()],
            vec!["http://c/announce".to_string()]
        ])
    );
    let odd = Bencode::List(vec![Bencode::List(vec![Bencode::Int(1)])]);
    assert_eq!(TorrentInfo::try_from(&with(odd)).unwrap().announce_list, None);
    assert_eq!(TorrentInfo::try_from(&with(byte_string("x"))).unwrap().announce_list, None);
}

#[test]
fn incomplete_metainfo_is_refused() {
    let error = |value: Bencode| TorrentInfo::try_from(&value).unwrap_err();
    assert_eq!(error(dict(vec![("info", sample_info(&[]))])), TorrentError::MissingAnnouce);
    assert_eq!(
        error(dict(vec![("announce", Bencode::Int(1)), ("info", sample_info(&[]))])),
        TorrentError::MissingAnnouce
    );
    assert_eq!(
        error(dict(vec![("announce", Bencode::Bytes(vec![0xFF])), ("info", sample_info(&[]))])),
        TorrentError::MissingAnnouce
    );
    assert_eq!(error(dict(vec![("announce", byte_string("u"))])), TorrentError::MissingInfo);
    let info_error = |info: Bencode| error(dict(vec![("announce", byte_string("u")), ("info", info)]));
    assert_eq!(
        info_error(dict(vec![("name", byte_string("n"))])),
        TorrentError::MisingInfo(InfoError::MissingLength)
    );
    assert_eq!(
        info_error(dict(vec![("length", Bencode::Int(1))])),
        TorrentError::MisingInfo(InfoError::MissingName)
    );
    assert_eq!(
        info_error(dict(vec![("length", Bencode::Int(1)), ("name", Bencode::Bytes(vec![0xC0]))])),
        TorrentError::MisingInfo(InfoError::MissingName)
    );
    assert_eq!(
        info_error(dict(vec![("length", Bencode::Int(1)), ("name", byte_string("n"))])),
        TorrentError::MisingInfo(InfoError::MissingPieceLength)
    );
    assert_eq!(
        info_error(dict(vec![
            ("length", Bencode::Int(1)),
            ("name", byte_string("n")),
            ("piece length", Bencode::Int(1))
        ])),
        TorrentError::MisingInfo(InfoError::MissingPieces)
    );
    assert_eq!(
        info_error(sample_info(&[0u8; 59])),
        TorrentError::MisingInfo(InfoError::MissingPieces)
    );
    assert_eq!(
        TorrentParser::parse(b"d8:announce1:ue").unwrap_err(),
        ParseError::TorrentError(TorrentError::MissingInfo)
    );
    assert_eq!(
        TorrentParser::parse(b"d8:announce1:u").unwrap_err(),
        ParseError::BencodeError(BencodeError::UnexpectedEnd)
    );
}

#[test]
fn unusable_geometry_is_noticed() {
    let torrent = |length: i64, piece_length: i64, pieces: usize| {
        let info = dict(vec![
            ("length", Bencode::Int(length)),
            ("name", byte_string("n")),
            ("piece length", Bencode::Int(piece_length)),
            ("pieces", Bencode::Bytes(vec![0u8; 20 * pieces])),
        ]);
        TorrentInfo::try_from(&dict(vec![("announce", byte_string("u")), ("info", info)])).unwrap()
    };
    assert!(torrent(100, 10, 10).is_valid());
    assert!(torrent(101, 10, 11).is_valid());
    assert!(torrent(0, 10, 0).is_valid());
    assert!(!torrent(101, 10, 10).is_valid());
    assert!(!torrent(100, 0, 10).is_valid());
    assert!(!torrent(100, -10, 10).is_valid());
    assert!(!torrent(-1, 10, 0).is_valid());
    assert!(!torrent(100, 0x8000_0000, 1).is_valid());
    assert!(torrent(100, 0x7FFF_FFFF, 1).is_valid());
}

#[test]
fn info_goes_back_to_its_dictionary() {
    let info = Info {
        length: 92063,
        name: "sample.txt".to_string(),
        piece_length: 32768,
        pieces: vec![PieceHash([1; 20]), PieceHash([2; 20]), PieceHash([3; 20])],
    };
    let mut hashes = vec![1u8; 20];
    hashes.extend(vec![2u8; 20]);
    hashes.extend(vec![3u8; 20]);
    let value = info.to_bencode();
    assert_eq!(value, sample_info(&hashes));
    assert_eq!(
        value.encode()[..60],
        b"d6:lengthi92063e4:name10:sample.txt12:piece lengthi32768e6:pieces60:"[..60]
    );
    let back = Info::from(&value).unwrap();
    assert_eq!(back.length, 92063);
    assert_eq!(back.name, "sample.txt");
    assert_eq!(back.pieces, info.pieces);
    assert_eq!(Bencode::decode(&value.encode()), Ok(value));
}

#[test]
fn torrent_goes_back_to_its_dictionary() {
    let data = sample_torrent(sample_info(&[9u8; 40]));
    let mut entries = match data {
        Bencode::Dict(entries) => entries,
        other => panic!("unexpected value {:?}", other),
    };
    // Only the announce URL and the info dictionary are kept.
    entries.remove(1);
    let plain = Bencode::Dict(entries);
    let torrent = TorrentInfo::try_from(&plain).unwrap();
    assert_eq!(torrent.to_bencode(), plain);
    assert_eq!(TorrentParser::parse(&torrent.to_bencode().encode()).unwrap().info_hash, torrent.info_hash);
}

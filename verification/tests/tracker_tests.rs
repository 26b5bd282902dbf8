use std::sync::Arc;

use bittorrent_core::bencode::Bencode;
use bittorrent_core::http_tracker::{
    parse_quad, Event, TrackerError as DaemonTrackerError, TrackerRequest, TrackerResponse,
};
use bittorrent_core::metainfo::{Info, TorrentInfo};
use bittorrent_core::tracker::{
    parse_peers, AnnounceEvent, TrackerClient, TrackerCursor, TrackerError, TrackerStatus,
};
use bittorrent_core::types::{InfoHash, PeerAddr, PeerId, PieceHash};

fn dict(entries: Vec<(&str, Bencode)>) -> Bencode {
    Bencode::Dict(entries.into_iter().map(|(k, v)| (k.as_bytes().to_vec(), v)).collect())
}

fn byte_string(text: &str) -> Bencode {
    Bencode::Bytes(text.as_bytes().to_vec())
}

fn torrent(tiers: Option<Vec<Vec<&str>>>) -> Arc<TorrentInfo> {
    Arc::new(TorrentInfo {
        announce: "http://primary/announce".to_string(),
        announce_list: tiers
            .map(|t| t.iter().map(|tier| tier.iter().map(|u| u.to_string()).collect()).collect()),
        info: Info {
            length: 1000,
            name: "file".to_string(),
            piece_length: 256,
            pieces: vec![PieceHash([0; 20]); 4],
        },
        info_hash: InfoHash([0x12, 0xAB, b'a', b' ', b'~', 0, 0xFF, b'-', b'_', b'.', 1, 2, 3, 4, 5, 6, 7, 8, 9, 10]),
    })
}

fn client(tiers: Option<Vec<Vec<&str>>>) -> TrackerClient {
    TrackerClient::new(torrent(tiers), PeerId(*b"-RS0001-abcdefghijkl"))
}

fn status(interval: u32) -> TrackerStatus {
    TrackerStatus {
        interval,
        min_interval: None,
        tracker_id: None,
        complete: 0,
        incomplete: 0,
        peers: vec![],
    }
}

#[test]
fn announce_events_have_their_names() {
    assert_eq!(AnnounceEvent::Started.as_str(), Some("started"));
    assert_eq!(AnnounceEvent::Stopped.as_str(), Some("stopped"));
    assert_eq!(AnnounceEvent::Completed.as_str(), Some("completed"));
    assert_eq!(AnnounceEvent::Empty.as_str(), None);
}

#[test]
fn query_of_an_announce() {
    let mut c = client(None);
    let head = "info_hash=%12%AB%61%20%7E%00%FF%2D%5F%2E%01%02%03%04%05%06%07%08%09%0A\
                &peer_id=%2D%52%53%30%30%30%31%2D%61%62%63%64%65%66%67%68%69%6A%6B%6C";
    assert_eq!(
        String::from_utf8(c.query(AnnounceEvent::Started)).unwrap(),
        format!(
            "{}&port=6881&uploaded=0&downloaded=0&left=1000&compact=1&numwant=50&event=started",
            head
        )
    );
    c.set_port(51413);
    c.update_stats(7, 300);
    assert_eq!(
        String::from_utf8(c.query(AnnounceEvent::Empty)).unwrap(),
        format!(
            "{}&port=51413&uploaded=7&downloaded=300&left=700&compact=1&numwant=50",
            head
        )
    );
    c.update_stats(u64::MAX, 1001);
    let q = String::from_utf8(c.query(AnnounceEvent::Completed)).unwrap();
    assert!(q.ends_with(
        "&uploaded=18446744073709551615&downloaded=1001&left=0&compact=1&numwant=50&event=completed"
    ));
}

#[test]
fn tracker_id_is_kept_and_sent_back() {
    let mut c = client(None);
    let answer = dict(vec![
        ("interval", Bencode::Int(900)),
        ("peers", byte_string("")),
        ("tracker id", byte_string("id 1/é")),
    ]);
    let status = c.parse_announce(&answer).unwrap();
    assert_eq!(status.tracker_id.as_deref(), Some("id 1/é"));
    let q = String::from_utf8(c.query(AnnounceEvent::Stopped)).unwrap();
    assert!(q.ends_with("&numwant=50&event=stopped&trackerid=id+1%2F%C3%A9"), "{}", q);
}

#[test]
fn answer_of_a_tracker_is_read() {
    let mut c = client(None);
    let answer = dict(vec![
        ("complete", Bencode::Int(12)),
        ("incomplete", Bencode::Int(3)),
        ("interval", Bencode::Int(1800)),
        ("min interval", Bencode::Int(60)),
        ("peers", Bencode::Bytes(vec![165, 232, 38, 164, 0xC8, 0xD5, 10, 0, 0, 1, 0x1A, 0xE1])),
    ]);
    let status = c.parse_announce(&answer).unwrap();
    assert_eq!(status.interval, 1800);
    assert_eq!(status.min_interval, Some(60));
    assert_eq!(status.complete, 12);
    assert_eq!(status.incomplete, 3);
    assert_eq!(status.tracker_id, None);
    assert_eq!(status.peers.len(), 2);
    assert_eq!(status.peers[0].ip, "165.232.38.164");
    assert_eq!(status.peers[0].port, 51413);
    assert_eq!(status.peers[0].peer_id, None);
    assert_eq!(status.peers[1].ip, "10.0.0.1");
    assert_eq!(status.peers[1].port, 6881);
}

#[test]
fn interval_falls_back_to_the_default() {
    let mut c = client(None);
    for interval in [Bencode::Int(0), Bencode::Int(-5), byte_string("soon")] {
        let answer = dict(vec![("interval", interval), ("peers", byte_string(""))]);
        let status = c.parse_announce(&answer).unwrap();
        assert_eq!(status.interval, 120);
        assert_eq!(status.min_interval, None);
        assert_eq!(status.complete, 0);
    }
    let status = c.parse_announce(&dict(vec![("peers", byte_string(""))])).unwrap();
    assert_eq!(status.interval, 120);
    // Numbers beyond 32 bits keep their low 32 bits.
    let answer = dict(vec![
        ("complete", Bencode::Int(-1)),
        ("interval", Bencode::Int(0x1_0000_0005)),
        ("peers", byte_string("")),
    ]);
    let status = c.parse_announce(&answer).unwrap();
    assert_eq!(status.interval, 5);
    assert_eq!(status.complete, u32::MAX);
}

#[test]
fn refusal_and_malformed_peers_are_errors() {
    let mut c = client(None);
    let refused = dict(vec![("failure reason", byte_string("torrent not registered"))]);
    assert!(matches!(
        c.parse_announce(&refused),
        Err(TrackerError::TrackerError(reason)) if reason == "torrent not registered"
    ));
    assert!(matches!(
        c.parse_announce(&dict(vec![("interval", Bencode::Int(5))])),
        Err(TrackerError::MissingField(field)) if field == "peers"
    ));
    assert!(matches!(
        parse_peers(&dict(vec![("peers", Bencode::Int(5))])),
        Err(TrackerError::MissingField(field)) if field == "peers"
    ));
    assert!(matches!(
        parse_peers(&dict(vec![("peers", Bencode::Bytes(vec![1, 2, 3, 4, 5]))])),
        Err(TrackerError::InvalidResponseFormat(what)) if what == "Invalid compact peers format"
    ));
}

#[test]
fn peers_as_dictionaries() {
    let peer = |ip: &str, port: i64| dict(vec![("ip", byte_string(ip)), ("port", Bencode::Int(port))]);
    let list = Bencode::List(vec![
        peer("10.1.2.3", 6881),
        Bencode::Int(7),
        dict(vec![("ip", byte_string("example.org")), ("peer id", byte_string("abc")), ("port", Bencode::Int(65536 + 80))]),
    ]);
    let peers = parse_peers(&dict(vec![("peers", list)])).unwrap();
    assert_eq!(peers.len(), 2);
    assert_eq!((peers[0].ip.as_str(), peers[0].port), ("10.1.2.3", 6881));
    assert_eq!(peers[0].peer_id, None);
    assert_eq!((peers[1].ip.as_str(), peers[1].port), ("example.org", 80));
    assert_eq!(peers[1].peer_id.as_deref(), Some("abc"));

    let no_ip = Bencode::List(vec![peer("10.1.2.3", 1), dict(vec![("port", Bencode::Int(1))])]);
    assert!(matches!(
        parse_peers(&dict(vec![("peers", no_ip)])),
        Err(TrackerError::MissingField(field)) if field == "ip"
    ));
    let no_port = Bencode::List(vec![dict(vec![("ip", byte_string("1.1.1.1")), ("port", byte_string("80"))])]);
    assert!(matches!(
        parse_peers(&dict(vec![("peers", no_port)])),
        Err(TrackerError::MissingField(field)) if field == "port"
    ));
}

#[test]
fn single_tracker_without_a_tier_list() {
    let c = client(None);
    let first = c.first_tracker().unwrap();
    assert_eq!(first, TrackerCursor { tier: 0, index: 0 });
    assert_eq!(c.tracker_url(first).unwrap(), "http://primary/announce");
    assert_eq!(c.next_tracker(first), None);
    assert!(matches!(c.no_tracker_left(), TrackerError::NoWorkingTrackers));
    assert!(c.current_tracker_url().is_none());
}

#[test]
fn tiers_are_walked_in_order() {
    let c = client(Some(vec![vec!["a1", "a2", "a3"], vec![], vec!["c1"], vec![]]));
    let mut seen: Vec<(usize, usize)> = Vec::new();
    let mut tier0: Vec<String> = Vec::new();
    let mut at = c.first_tracker();
    while let Some(cursor) = at {
        seen.push((cursor.tier, cursor.index));
        if cursor.tier == 0 {
            tier0.push(c.tracker_url(cursor).unwrap().clone());
        } else {
            assert_eq!(c.tracker_url(cursor).unwrap(), "c1");
        }
        at = c.next_tracker(cursor);
    }
    assert_eq!(seen, vec![(0, 0), (0, 1), (0, 2), (2, 0)]);
    // The tier was shuffled: the same trackers in some order.
    tier0.sort();
    assert_eq!(tier0, vec!["a1", "a2", "a3"]);
    assert_eq!(c.tracker_url(TrackerCursor { tier: 1, index: 0 }), None);
    assert_eq!(c.tracker_url(TrackerCursor { tier: 9, index: 0 }), None);
    assert_eq!(c.next_tracker(TrackerCursor { tier: usize::MAX, index: usize::MAX }), None);
    assert!(client(Some(vec![vec![], vec![]])).first_tracker().is_none());
    assert!(client(Some(vec![])).first_tracker().is_none());
}

#[test]
fn tracker_that_answers_moves_to_the_front() {
    let mut c = client(Some(vec![vec!["a1", "a2", "a3"], vec!["b1"]]));
    let order: Vec<String> =
        (0..3).map(|i| c.tracker_url(TrackerCursor { tier: 0, index: i }).unwrap().clone()).collect();
    let wait = c.announce_succeeded(
        AnnounceEvent::Started,
        TrackerCursor { tier: 0, index: 2 },
        &status(1800),
    );
    assert_eq!(wait, 1800);
    let after: Vec<String> =
        (0..3).map(|i| c.tracker_url(TrackerCursor { tier: 0, index: i }).unwrap().clone()).collect();
    assert_eq!(after, vec![order[2].clone(), order[0].clone(), order[1].clone()]);
    assert_eq!(c.current_tracker_url(), Some(&order[2]));
    assert_eq!(c.tracker_url(TrackerCursor { tier: 1, index: 0 }).unwrap(), "b1");
    c.promote(TrackerCursor { tier: 5, index: 0 });
    assert_eq!(c.current_tracker_url(), Some(&order[2]));
}

#[test]
fn announces_follow_the_life_of_the_download() {
    let mut c = client(None);
    let at = c.first_tracker().unwrap();
    // Until the first announce succeeds, every announce is `started`.
    assert_eq!(c.next_event(), AnnounceEvent::Started);
    assert!(!c.owes_completed());
    assert_eq!(c.announce_failed(), 120);
    assert_eq!(c.next_event(), AnnounceEvent::Started);
    assert_eq!(c.announce_succeeded(AnnounceEvent::Started, at, &status(300)), 300);
    assert_eq!(c.next_event(), AnnounceEvent::Empty);
    // A failure keeps the interval of the last answer.
    assert_eq!(c.announce_failed(), 300);
    assert_eq!(c.announce_succeeded(AnnounceEvent::Empty, at, &status(600)), 600);
    // The end of the download is announced once.
    assert!(c.owes_completed());
    c.announce_succeeded(AnnounceEvent::Completed, at, &status(600));
    assert!(!c.owes_completed());
    assert_eq!(c.next_event(), AnnounceEvent::Empty);
}

#[test]
fn request_of_the_daemon() {
    let req = TrackerRequest::new(InfoHash([0xA1; 20]), *b"-RS0001-~._-abcdefgh", 500, Event::Started);
    assert_eq!(req.port, 6881);
    assert_eq!((req.uploaded, req.downloaded, req.left), (0, 0, 500));
    assert!(req.compact);
    assert_eq!(
        String::from_utf8(req.build_query()).unwrap(),
        format!(
            "info_hash={}&peer_id=-RS0001-~._-abcdefgh&port=6881&uploaded=0&downloaded=0&left=500&compact=1&event=started",
            "%A1".repeat(20)
        )
    );
    let mut req = TrackerRequest::new(InfoHash([b'x'; 20]), [b' '; 20], 0, Event::Empty);
    req.port = 9;
    assert_eq!(
        String::from_utf8(req.build_query()).unwrap(),
        format!(
            "info_hash={}&peer_id={}&port=9&uploaded=0&downloaded=0&left=0&compact=1",
            "x".repeat(20),
            "%20".repeat(20)
        )
    );
    req.event = Event::Completed;
    assert!(String::from_utf8(req.build_query()).unwrap().ends_with("&compact=1&event=completed"));
    req.event = Event::Stopped;
    assert!(String::from_utf8(req.build_query()).unwrap().ends_with("&compact=1&event=stopped"));
    req.compact = false;
    assert!(String::from_utf8(req.build_query()).unwrap().ends_with("&compact=0&event=stopped"));
}

#[test]
fn answer_to_the_daemon_is_read() {
    let answer = dict(vec![
        ("complete", Bencode::Int(5)),
        ("interval", Bencode::Int(60)),
        ("peers", Bencode::Bytes(vec![10, 0, 0, 1, 0x1A, 0xE1, 10, 0, 0, 2, 0, 80, 9, 9])),
    ]);
    let response = TrackerResponse::from_bencode(&answer).unwrap();
    assert_eq!(response.interval, 60);
    assert_eq!(response.seeders, 5);
    assert_eq!(response.leechers, 0);
    // Two whole peers; the two bytes left over are passed over.
    assert_eq!(
        response.peers,
        vec![PeerAddr::new([10, 0, 0, 1], 6881), PeerAddr::new([10, 0, 0, 2], 80)]
    );
    assert_eq!(TrackerResponse::parse_peers(&[1, 2, 3, 4, 5]), vec![]);
    assert_eq!(
        TrackerResponse::parse_peers(&[1, 2, 3, 4, 0xFF, 0xFF]),
        vec![PeerAddr::new([1, 2, 3, 4], 65535)]
    );
}

fn complaint(answer: Bencode) -> String {
    match TrackerResponse::from_bencode(&answer) {
        Err(DaemonTrackerError::InvalidResponse(what)) => what,
        other => panic!("unexpected outcome {:?}", other),
    }
}

#[test]
fn malformed_answers_to_the_daemon_are_refused() {
    assert_eq!(complaint(Bencode::Int(1)), "Response is not a dictionary");
    assert_eq!(
        complaint(dict(vec![("failure reason", Bencode::Int(1))])),
        "Failure reason is not a byte string"
    );
    let bad_text = complaint(dict(vec![("failure reason", Bencode::Bytes(vec![b'a', 0xFF]))]));
    assert!(bad_text.starts_with("Failure reason is not valid UTF-8: "), "{}", bad_text);
    assert!(bad_text.len() > "Failure reason is not valid UTF-8: ".len());
    assert!(matches!(
        TrackerResponse::from_bencode(&dict(vec![("failure reason", byte_string("no such torrent"))])),
        Err(DaemonTrackerError::TrackerFailure(reason)) if reason == "no such torrent"
    ));
    assert_eq!(
        complaint(dict(vec![("interval", byte_string("60")), ("peers", byte_string(""))])),
        "Interval is not an integer"
    );
    assert_eq!(complaint(dict(vec![("interval", Bencode::Int(60))])), "Missing 'peers' key");
    for peers in [Bencode::Int(6), dict(vec![("ip", byte_string("10.0.0.1"))])] {
        assert!(matches!(
            TrackerResponse::from_bencode(&dict(vec![("interval", Bencode::Int(60)), ("peers", peers)])),
            Err(DaemonTrackerError::InvalidPeerData)
        ));
    }
    assert_eq!(
        complaint(dict(vec![
            ("complete", Bencode::Int(-2)),
            ("interval", Bencode::Int(60)),
            ("peers", byte_string(""))
        ])),
        "'complete' value is not a non-negative integer"
    );
    assert_eq!(
        complaint(dict(vec![
            ("incomplete", byte_string("many")),
            ("interval", Bencode::Int(60)),
            ("peers", byte_string(""))
        ])),
        "'incomplete' value is not a non-negative integer"
    );
}

#[test]
fn body_of_an_answer_is_decoded_and_read() {
    let mut c = client(None);
    let status = c.read_response(b"d8:completei2e8:intervali30e5:peers6:\x0a\x00\x00\x01\x1a\xe1e").unwrap();
    assert_eq!((status.interval, status.complete, status.peers.len()), (30, 2, 1));
    assert_eq!(status.peers[0].ip, "10.0.0.1");
    assert!(matches!(
        c.read_response(b"d8:intervali30ee"),
        Err(TrackerError::MissingField(field)) if field == "peers"
    ));
    assert!(matches!(
        c.read_response(b"<html>busy</html>"),
        Err(TrackerError::BencodeError(bittorrent_core::bencode::BencodeError::InvalidByte))
    ));
    assert!(matches!(
        c.read_response(b"d5:peers0:e trailing"),
        Err(TrackerError::BencodeError(bittorrent_core::bencode::BencodeError::TrailingData))
    ));
}

#[test]
fn negative_length_leaves_nothing_to_download() {
    let odd = Arc::new(TorrentInfo {
        announce: "http://primary/announce".to_string(),
        announce_list: None,
        info: Info { length: -5, name: "f".to_string(), piece_length: 1, pieces: vec![] },
        info_hash: InfoHash([0; 20]),
    });
    let c = TrackerClient::new(odd, PeerId([0; 20]));
    assert!(String::from_utf8(c.query(AnnounceEvent::Empty)).unwrap().contains("&left=0&"));
}

fn answer_with(interval: Option<Bencode>, peers: Bencode) -> TrackerResponse {
    let mut entries = Vec::new();
    if let Some(i) = interval {
        entries.push(("interval", i));
    }
    entries.push(("peers", peers));
    TrackerResponse::from_bencode(&dict(entries)).unwrap()
}

#[test]
fn interval_of_the_daemon_falls_back_to_the_default() {
    assert_eq!(answer_with(None, byte_string("")).interval, 120);
    assert_eq!(answer_with(Some(Bencode::Int(0)), byte_string("")).interval, 120);
    assert_eq!(answer_with(Some(Bencode::Int(-1)), byte_string("")).interval, 120);
    assert_eq!(answer_with(Some(Bencode::Int(1)), byte_string("")).interval, 1);
    assert_eq!(answer_with(Some(Bencode::Int(1800)), byte_string("")).interval, 1800);
}

fn listed(ip: &str, port: i64) -> Bencode {
    dict(vec![("ip", byte_string(ip)), ("port", Bencode::Int(port))])
}

#[test]
fn peers_listed_as_dictionaries_are_read() {
    let response = answer_with(
        Some(Bencode::Int(60)),
        Bencode::List(vec![
            listed("10.0.0.1", 6881),
            Bencode::Int(3),
            listed("tracker.example.org", 80),
            dict(vec![
                ("ip", byte_string("192.168.1.255")),
                ("peer id", byte_string("-RS0001-abcdefghijkl")),
                ("port", Bencode::Int(65535)),
            ]),
            listed("::1", 9),
            listed("0.0.0.0", 0),
        ]),
    );
    assert_eq!(
        response.peers,
        vec![
            PeerAddr::new([10, 0, 0, 1], 6881),
            PeerAddr::new([192, 168, 1, 255], 65535),
            PeerAddr::new([0, 0, 0, 0], 0),
        ]
    );
    assert_eq!(answer_with(None, Bencode::List(vec![])).peers, vec![]);
}

#[test]
fn unusable_dictionaries_spoil_the_list_of_peers() {
    let spoiled = [
        dict(vec![("port", Bencode::Int(1))]),
        dict(vec![("ip", byte_string("10.0.0.1"))]),
        dict(vec![("ip", Bencode::Int(1)), ("port", Bencode::Int(1))]),
        dict(vec![("ip", byte_string("10.0.0.1")), ("port", byte_string("1"))]),
        listed("10.0.0.1", 65536),
        listed("10.0.0.1", -1),
    ];
    for item in spoiled {
        let peers = Bencode::List(vec![listed("10.0.0.2", 2), item]);
        assert!(matches!(
            TrackerResponse::from_bencode(&dict(vec![("interval", Bencode::Int(60)), ("peers", peers)])),
            Err(DaemonTrackerError::InvalidPeerData)
        ));
    }
}

#[test]
fn four_octets_with_dots_are_an_address() {
    assert_eq!(parse_quad(b"10.0.0.1"), Some([10, 0, 0, 1]));
    assert_eq!(parse_quad(b"255.255.255.255"), Some([255, 255, 255, 255]));
    assert_eq!(parse_quad(b"0.0.0.0"), Some([0, 0, 0, 0]));
    for text in [
        &b""[..], b"1.2.3", b"1.2.3.4.5", b"1.2.3.", b".1.2.3", b"1..2.3", b"256.0.0.1",
        b"01.2.3.4", b"1.2.3.04", b"1.2.3.4 ", b"a.b.c.d", b"1.2.3.-4", b"1,2,3,4",
        b"99999999999999999999999.1.1.1",
    ] {
        assert_eq!(parse_quad(text), None, "{:?}", text);
    }
}

#[test]
fn the_end_of_the_download_is_announced_once_and_after_the_start() {
    let mut c = client(None);
    let at = c.first_tracker().unwrap();
    assert_eq!(c.event_for(false), AnnounceEvent::Started);
    assert_eq!(c.event_for(true), AnnounceEvent::Started);
    c.announce_succeeded(AnnounceEvent::Started, at, &status(300));
    assert_eq!(c.event_for(false), AnnounceEvent::Empty);
    assert_eq!(c.event_for(true), AnnounceEvent::Completed);
    c.announce_succeeded(AnnounceEvent::Empty, at, &status(300));
    assert_eq!(c.event_for(true), AnnounceEvent::Completed);
    c.announce_succeeded(AnnounceEvent::Completed, at, &status(300));
    assert_eq!(c.event_for(true), AnnounceEvent::Empty);
    assert_eq!(c.event_for(false), AnnounceEvent::Empty);
}

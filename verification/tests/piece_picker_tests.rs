use std::sync::Arc;

use bittorrent_core::bitfield::BitField;
use bittorrent_core::metainfo::{Info, TorrentInfo};
use bittorrent_core::piece_picker::{
    split_piece, BlockInfo, PiecePicker, PieceStatus, Strategy,
};
use bittorrent_core::types::{InfoHash, PeerAddr, PieceHash};

fn create_mock_torrent(piece_count: usize, piece_length: i64) -> Arc<TorrentInfo> {
    let pieces = vec![PieceHash([0; 20]); piece_count];

    let info = Info {
        length: piece_count as i64 * piece_length,
        name: "test.txt".to_string(),
        piece_length,
        pieces,
    };

    Arc::new(TorrentInfo {
        announce: "http://tracker.example.com/announce".to_string(),
        announce_list: None,
        info,
        info_hash: InfoHash([0; 20]),
    })
}

fn create_bitfield(size: usize, pieces: &[usize]) -> BitField {
    let mut bf = BitField::new(size);
    for &piece in pieces {
        bf.set_piece(piece);
    }
    bf
}

fn socket_addr(ip: &str, port: u16) -> PeerAddr {
    let parts: Vec<u8> = ip.split('.').map(|p| p.parse().unwrap()).collect();
    PeerAddr::new([parts[0], parts[1], parts[2], parts[3]], port)
}

fn availability(picker: &PiecePicker, piece: usize) -> usize {
    picker.piece(piece).unwrap().availability
}

#[test]
fn test_register_peer_and_check_interest() {
    let torrent = create_mock_torrent(10, 16384);
    let mut picker = PiecePicker::from(torrent);

    let peer1 = socket_addr("192.168.1.1", 8080);
    let peer2 = socket_addr("192.168.1.2", 8080);

    let bf1 = create_bitfield(10, &[0, 2, 4]);
    picker.register_peer(peer1, bf1);

    assert!(
        picker.check_interest(peer1),
        "Should be interested in peer with pieces we don't have"
    );

    let bf2 = create_bitfield(10, &[0, 3, 5]);
    picker.register_peer(peer2, bf2);

    assert!(
        picker.check_interest(peer2),
        "Should be interested in peer with pieces we don't have"
    );

    picker.mark_piece_downloaded(0);

    assert!(
        picker.check_interest(peer1),
        "Should still be interested in peer1 (has pieces 2, 4)"
    );
    assert!(
        picker.check_interest(peer2),
        "Should still be interested in peer2 (has pieces 3, 5)"
    );

    picker.mark_piece_downloaded(2);
    picker.mark_piece_downloaded(4);

    assert!(
        !picker.check_interest(peer1),
        "Should not be interested in peer1 when we have all their pieces"
    );
    assert!(
        picker.check_interest(peer2),
        "Should still be interested in peer2 (has pieces 3, 5)"
    );
}

#[test]
fn test_unregister_peer() {
    let torrent = create_mock_torrent(10, 16384);
    let mut picker = PiecePicker::from(torrent);

    let peer1 = socket_addr("192.168.1.1", 8080);
    let peer2 = socket_addr("192.168.1.2", 8080);

    let bf1 = create_bitfield(10, &[0, 2, 4]);
    picker.register_peer(peer1, bf1);

    let bf2 = create_bitfield(10, &[0, 3, 5]);
    picker.register_peer(peer2, bf2);

    picker.unregister_peer(&peer1);

    assert!(
        picker.check_interest(peer2),
        "Should still be interested in peer2 after unregistering peer1"
    );

    assert!(
        !picker.check_interest(peer1),
        "Should not be interested in unregistered peer"
    );
}

#[test]
fn test_update_peer() {
    let torrent = create_mock_torrent(10, 16384);
    let mut picker = PiecePicker::from(torrent);

    let peer = socket_addr("192.168.1.1", 8080);

    let bf = create_bitfield(10, &[0, 2]);
    picker.register_peer(peer, bf);

    picker.update_peer(&peer, 3);

    assert!(
        picker.check_interest(peer),
        "Should be interested in peer after update"
    );

    picker.mark_piece_downloaded(0);
    picker.mark_piece_downloaded(2);
    picker.mark_piece_downloaded(3);

    assert!(
        !picker.check_interest(peer),
        "Should not be interested in peer when we have all their pieces"
    );
}

#[test]
fn test_strategy_switch_by_downloading_pieces() {
    let torrent = create_mock_torrent(10, 16384);
    let mut picker = PiecePicker::from(torrent);

    let peer = socket_addr("192.168.1.1", 8080);

    let bf = create_bitfield(10, &(0..10).collect::<Vec<_>>());
    picker.register_peer(peer, bf);

    let initial_requests = (0..10)
        .map(|_| {
            let blocks = picker.pick_piece(&peer).unwrap();
            let piece_idx = blocks[0].index as usize;
            picker.mark_piece_downloaded(piece_idx);
            piece_idx
        })
        .collect::<Vec<_>>();

    let is_sequential = initial_requests.windows(2).all(|w| w[0] + 1 == w[1]);
    assert!(
        !is_sequential,
        "RandomFirst strategy should not pick pieces sequentially"
    );
}

#[test]
fn test_pick_piece_rarest_first_behavior() {
    let torrent = create_mock_torrent(10, 16384);
    let mut picker = PiecePicker::from(torrent);

    let peer1 = socket_addr("192.168.1.1", 8080);
    let peer2 = socket_addr("192.168.1.2", 8080);
    let peer3 = socket_addr("192.168.1.3", 8080);

    for i in 0..4 {
        picker.mark_piece_downloaded(i);
    }

    picker.register_peer(peer1, create_bitfield(10, &[4, 5]));
    picker.register_peer(peer2, create_bitfield(10, &[4, 6, 7]));
    picker.register_peer(peer3, create_bitfield(10, &[4, 5, 6, 7, 8, 9]));

    let blocks = picker.pick_piece(&peer3).unwrap();
    let piece_idx = blocks[0].index as usize;

    assert!(
        piece_idx == 8 || piece_idx == 9,
        "With RarestFirst strategy, peer3 should pick one of the rarest pieces (8 or 9), got {}",
        piece_idx
    );
}

#[test]
fn test_get_blocks_and_piece_size() {
    let torrent = create_mock_torrent(2, 32768);
    let mut picker = PiecePicker::from(torrent);

    let peer = socket_addr("192.168.1.1", 8080);
    picker.register_peer(peer, create_bitfield(2, &[0, 1]));

    let blocks = picker.pick_piece(&peer).unwrap();

    assert_eq!(blocks.len(), 2, "Should split a 32KB piece into 2 blocks");

    assert_eq!(blocks[0].begin, 0, "First block should start at offset 0");
    assert_eq!(blocks[0].length, 16384, "Block size should be 16KB");

    assert_eq!(
        blocks[1].begin, 16384,
        "Second block should start at offset 16KB"
    );
    assert_eq!(blocks[1].length, 16384, "Block size should be 16KB");
}

#[test]
fn test_get_blocks_last_piece() {
    let torrent = Arc::new(TorrentInfo {
        announce: "http://tracker.example.com/announce".to_string(),
        announce_list: None,
        info: Info {
            length: 40000,
            name: "test.txt".to_string(),
            piece_length: 32768,
            pieces: vec![PieceHash([0; 20]); 2],
        },
        info_hash: InfoHash([0; 20]),
    });

    let mut picker = PiecePicker::from(torrent);

    let peer = socket_addr("192.168.1.1", 8080);
    picker.register_peer(peer, create_bitfield(2, &[0, 1]));

    picker.mark_piece_downloaded(0);

    let blocks = picker.pick_piece(&peer).unwrap();

    assert_eq!(blocks[0].index, 1, "Should get blocks for piece 1");

    assert_eq!(blocks.len(), 1, "Last piece should have 1 block");
    assert_eq!(
        blocks[0].length, 7232,
        "Last block should have correct size"
    );
}

#[test]
fn test_all_pieces_downloaded() {
    let torrent = create_mock_torrent(3, 16384);
    let mut picker = PiecePicker::from(torrent);

    assert!(
        !picker.all_pieces_downloaded(),
        "Initially, not all pieces should be downloaded"
    );

    picker.mark_piece_downloaded(0);
    assert!(
        !picker.all_pieces_downloaded(),
        "After downloading 1/3 pieces, not all pieces should be downloaded"
    );

    picker.mark_piece_downloaded(1);
    assert!(
        !picker.all_pieces_downloaded(),
        "After downloading 2/3 pieces, not all pieces should be downloaded"
    );

    picker.mark_piece_downloaded(2);
    assert!(
        picker.all_pieces_downloaded(),
        "After downloading all pieces, all_pieces_downloaded should be true"
    );
}

#[test]
fn test_piece_request_status() {
    let torrent = create_mock_torrent(5, 16384);
    let mut picker = PiecePicker::from(torrent);

    let peer1 = socket_addr("192.168.1.1", 8080);
    let peer2 = socket_addr("192.168.1.2", 8080);

    picker.register_peer(peer1, create_bitfield(5, &[0, 1, 2, 3, 4]));
    picker.register_peer(peer2, create_bitfield(5, &[0, 1, 2, 3, 4]));

    let blocks1 = picker.pick_piece(&peer1).unwrap();
    let piece_idx1 = blocks1[0].index as usize;

    let blocks2 = picker.pick_piece(&peer2).unwrap();
    let piece_idx2 = blocks2[0].index as usize;

    assert_ne!(
        piece_idx1, piece_idx2,
        "Same piece should not be picked twice"
    );

    picker.mark_piece_downloaded(piece_idx1);

    for _ in 0..3 {
        let blocks = picker.pick_piece(&peer1).unwrap();
        let piece_idx = blocks[0].index as usize;
        assert_ne!(
            piece_idx, piece_idx1,
            "Downloaded piece should not be picked again"
        );
    }
}

#[test]
fn rarest_first_counts_and_tie_break() {
    let mut picker = PiecePicker::from(create_mock_torrent(10, 16384));
    let peer1 = socket_addr("10.0.0.1", 6881);
    let peer2 = socket_addr("10.0.0.2", 6881);
    let peer3 = socket_addr("10.0.0.3", 6881);
    for i in 0..4 {
        picker.mark_piece_downloaded(i);
    }
    assert_eq!(picker.strategy(), Strategy::RarestFirst);
    picker.register_peer(peer1, create_bitfield(10, &[4, 5]));
    picker.register_peer(peer2, create_bitfield(10, &[4, 6, 7]));
    picker.register_peer(peer3, create_bitfield(10, &[4, 5, 6, 7, 8, 9]));
    let counts: Vec<usize> = (4..10).map(|i| availability(&picker, i)).collect();
    assert_eq!(counts, vec![3, 2, 2, 2, 1, 1]);
    // Pieces 8 and 9 are equally rare: the lower index goes first.
    assert_eq!(picker.pick_piece(&peer3).unwrap()[0].index, 8);
    assert_eq!(picker.pick_piece(&peer3).unwrap()[0].index, 9);
    // Then 5, 6 and 7, each with two peers, again by index.
    assert_eq!(picker.pick_piece(&peer3).unwrap()[0].index, 5);
    assert_eq!(picker.pick_piece(&peer2).unwrap()[0].index, 6);
    assert_eq!(picker.pick_piece(&peer2).unwrap()[0].index, 7);
    assert_eq!(picker.pick_piece(&peer1).unwrap()[0].index, 4);
    assert!(picker.pick_piece(&peer1).is_none());
    assert!(picker.pick_piece(&peer3).is_none());
}

#[test]
fn disconnect_rolls_availability_back() {
    let mut picker = PiecePicker::from(create_mock_torrent(4, 16384));
    let a = socket_addr("10.0.0.1", 1);
    let b = socket_addr("10.0.0.2", 1);
    picker.register_peer(a, create_bitfield(4, &[2]));
    picker.register_peer(b, create_bitfield(4, &[2, 3]));
    assert_eq!(availability(&picker, 2), 2);
    picker.unregister_peer(&a);
    assert_eq!(availability(&picker, 2), 1);
    picker.unregister_peer(&b);
    assert_eq!(availability(&picker, 2), 0);
    assert_eq!(availability(&picker, 3), 0);
    picker.unregister_peer(&a);
    assert_eq!(availability(&picker, 2), 0);
}

#[test]
fn availability_counts_the_peers_that_have_a_piece() {
    let mut picker = PiecePicker::from(create_mock_torrent(6, 16384));
    let peers: Vec<PeerAddr> = (1..=4).map(|i| PeerAddr::new([10, 0, 0, i], 6881)).collect();
    picker.register_peer(peers[0], create_bitfield(6, &[0, 1]));
    picker.register_peer(peers[1], create_bitfield(6, &[1, 2]));
    picker.register_peer(peers[2], create_bitfield(6, &[1, 5]));
    picker.update_peer(&peers[0], 5);
    picker.update_peer(&peers[0], 5);
    picker.update_peer(&peers[3], 4); // an unknown peer is ignored
    picker.update_peer(&peers[1], 6); // a piece that does not exist is ignored
    let counts: Vec<usize> = (0..6).map(|i| availability(&picker, i)).collect();
    assert_eq!(counts, vec![1, 3, 1, 0, 0, 2]);
    picker.unregister_peer(&peers[0]);
    let counts: Vec<usize> = (0..6).map(|i| availability(&picker, i)).collect();
    assert_eq!(counts, vec![0, 2, 1, 0, 0, 1]);
}

#[test]
fn strategy_turns_at_the_fourth_piece() {
    let mut picker = PiecePicker::from(create_mock_torrent(10, 16384));
    assert_eq!(picker.strategy(), Strategy::RandomFirst);
    for i in 0..3 {
        picker.mark_piece_downloaded(i);
        assert_eq!(picker.strategy(), Strategy::RandomFirst);
    }
    picker.mark_piece_downloaded(20);
    assert_eq!(picker.strategy(), Strategy::RandomFirst);
    picker.mark_piece_downloaded(7);
    assert_eq!(picker.strategy(), Strategy::RarestFirst);
    assert_eq!(picker.piece(7).unwrap().status, PieceStatus::Download);
}

#[test]
fn single_small_piece_is_one_block() {
    let torrent = Arc::new(TorrentInfo {
        announce: "http://tracker.example.com/announce".to_string(),
        announce_list: None,
        info: Info {
            length: 8,
            name: "tiny".to_string(),
            piece_length: 8,
            pieces: vec![PieceHash([0; 20]); 1],
        },
        info_hash: InfoHash([0; 20]),
    });
    let mut picker = PiecePicker::from(torrent);
    let peer = socket_addr("10.0.0.1", 1);
    picker.register_peer(peer, create_bitfield(1, &[0]));
    let blocks = picker.pick_piece(&peer).unwrap();
    assert_eq!(blocks, vec![BlockInfo { index: 0, begin: 0, length: 8 }]);
}

#[test]
fn blocks_cover_a_piece_exactly() {
    assert_eq!(split_piece(3, 0), vec![]);
    assert_eq!(
        split_piece(3, 16384),
        vec![BlockInfo { index: 3, begin: 0, length: 16384 }]
    );
    assert_eq!(
        split_piece(3, 16385),
        vec![
            BlockInfo { index: 3, begin: 0, length: 16384 },
            BlockInfo { index: 3, begin: 16384, length: 1 }
        ]
    );
    let blocks = split_piece(9, 40000);
    assert_eq!(blocks.len(), 3);
    assert_eq!(blocks[2], BlockInfo { index: 9, begin: 32768, length: 7232 });
    assert_eq!(blocks.iter().map(|b| b.length as u64).sum::<u64>(), 40000);
    let big = split_piece(0, u32::MAX);
    assert_eq!(big.len(), 262144);
    assert_eq!(big[262143], BlockInfo { index: 0, begin: 262143 * 16384, length: 16383 });
}

#[test]
fn last_piece_takes_the_remainder() {
    let torrent = TorrentInfo {
        announce: String::new(),
        announce_list: None,
        info: Info {
            length: 100_000,
            name: "f".to_string(),
            piece_length: 32768,
            pieces: vec![PieceHash([0; 20]); 4],
        },
        info_hash: InfoHash([0; 20]),
    };
    assert!(torrent.is_valid());
    assert_eq!(torrent.get_total_pieces(), 4);
    assert_eq!(torrent.get_piece_len(0), 32768);
    assert_eq!(torrent.get_piece_len(2), 32768);
    assert_eq!(torrent.get_piece_len(3), 100_000 % 32768);
}

#[test]
fn a_piece_is_handed_to_one_peer_only() {
    let mut picker = PiecePicker::from(create_mock_torrent(2, 16384));
    let a = socket_addr("10.0.0.1", 1);
    let b = socket_addr("10.0.0.2", 1);
    picker.register_peer(a, create_bitfield(2, &[0]));
    picker.register_peer(b, create_bitfield(2, &[0]));
    assert!(picker.request_piece(&a, 1).is_none());
    assert!(picker.request_piece(&a, 0).is_some());
    assert_eq!(picker.piece(0).unwrap().status, PieceStatus::Requested);
    assert_eq!(picker.piece(0).unwrap().holder, Some(a.key()));
    assert!(picker.request_piece(&b, 0).is_none());
    assert!(picker.pick_piece(&b).is_none());
    // Taken back, the piece can go to the other peer.
    assert_eq!(picker.release_peer(&a), vec![0]);
    assert_eq!(picker.piece(0).unwrap().status, PieceStatus::NotRequested);
    assert!(picker.pick_piece(&b).is_some());
    assert_eq!(picker.piece(0).unwrap().holder, Some(b.key()));
    picker.release_piece(0);
    assert_eq!(picker.piece(0).unwrap().holder, None);
    picker.mark_piece_downloaded(0);
    picker.release_piece(0);
    assert_eq!(picker.piece(0).unwrap().status, PieceStatus::Download);
}

#[test]
fn a_peer_registered_anew_counts_once() {
    let mut picker = PiecePicker::from(create_mock_torrent(4, 16384));
    let a = socket_addr("10.0.0.1", 1);
    let b = socket_addr("10.0.0.2", 1);
    picker.register_peer(b, create_bitfield(4, &[1]));
    picker.register_peer(a, create_bitfield(4, &[0, 1]));
    picker.register_peer(a, create_bitfield(4, &[0, 1]));
    let counts: Vec<usize> = (0..4).map(|i| availability(&picker, i)).collect();
    assert_eq!(counts, vec![1, 2, 0, 0]);
    // The newer bitfield takes the place of the older one.
    picker.register_peer(a, create_bitfield(4, &[1, 2]));
    let counts: Vec<usize> = (0..4).map(|i| availability(&picker, i)).collect();
    assert_eq!(counts, vec![0, 2, 1, 0]);
    picker.unregister_peer(&a);
    let counts: Vec<usize> = (0..4).map(|i| availability(&picker, i)).collect();
    assert_eq!(counts, vec![0, 1, 0, 0]);
}

#[test]
fn an_announcement_past_the_stored_bitfield_is_ignored() {
    let mut picker = PiecePicker::from(create_mock_torrent(12, 16384));
    let a = socket_addr("10.0.0.1", 1);
    picker.register_peer(a, create_bitfield(8, &[0]));
    picker.update_peer(&a, 7);
    picker.update_peer(&a, 9);
    assert_eq!(availability(&picker, 7), 1);
    assert_eq!(availability(&picker, 9), 0);
    picker.unregister_peer(&a);
    let counts: Vec<usize> = (0..12).map(|i| availability(&picker, i)).collect();
    assert_eq!(counts, vec![0; 12]);
}

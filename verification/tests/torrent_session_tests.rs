use std::sync::Arc;

use bittorrent_core::bitfield::BitField;
use bittorrent_core::metainfo::{Info, TorrentInfo};
use bittorrent_core::piece_picker::{Block, BlockInfo};
use bittorrent_core::torrent_session::{hash_matches, Torrent, TorrentAction, TorrentMessage};
use bittorrent_core::types::{InfoHash, PeerAddr, PieceHash};
use bytes::Bytes;
use sha1::{Digest, Sha1};

fn sha1(data: &[u8]) -> PieceHash {
    PieceHash(Sha1::digest(data).into())
}

fn single_piece_torrent() -> Arc<TorrentInfo> {
    Arc::new(TorrentInfo {
        announce: "http://tracker.example.com/announce".to_string(),
        announce_list: None,
        info: Info {
            length: 8,
            name: "letters".to_string(),
            piece_length: 8,
            pieces: vec![sha1(b"ABCDEFGH")],
        },
        info_hash: InfoHash([0x11; 20]),
    })
}

fn two_piece_torrent() -> Arc<TorrentInfo> {
    Arc::new(TorrentInfo {
        announce: "http://tracker.example.com/announce".to_string(),
        announce_list: None,
        info: Info {
            length: 12,
            name: "letters".to_string(),
            piece_length: 8,
            pieces: vec![sha1(b"ABCDEFGH"), sha1(b"IJKL")],
        },
        info_hash: InfoHash([0x22; 20]),
    })
}

fn peer(n: u8) -> PeerAddr {
    PeerAddr::new([192, 168, 1, n], 6881)
}

fn bitfield(bytes: &[u8], pieces: usize) -> BitField {
    BitField::try_from(Bytes::copy_from_slice(bytes), pieces).unwrap()
}

#[test]
fn single_piece_download() {
    let mut session = Torrent::new(single_piece_torrent(), 50);
    let p = peer(1);
    assert!(session.handle(TorrentMessage::PeerConnected(p)).is_empty());

    let actions = session.handle(TorrentMessage::PeerBitfield {
        peer_addr: p,
        peer_bf: bitfield(&[0b10000000], 1),
    });
    assert!(matches!(
        &actions[..],
        [TorrentAction::Interest { peer, interested: true }] if *peer == p
    ));

    let actions = session.handle(TorrentMessage::GetTask(p));
    match &actions[..] {
        [TorrentAction::Task { peer, blocks: Some(blocks) }] => {
            assert_eq!(*peer, p);
            assert_eq!(blocks, &vec![BlockInfo { index: 0, begin: 0, length: 8 }]);
        }
        other => panic!("unexpected actions {:?}", other),
    }

    let block = Block { index: 0, begin: 0, data: Bytes::from_static(b"ABCDEFGH") };
    let actions = session.handle(TorrentMessage::Piece(p, block));
    match &actions[..] {
        [TorrentAction::WriteBlock { piece, info_hash, offset, data }] => {
            assert_eq!(*piece, 0);
            assert_eq!(*info_hash, InfoHash([0x11; 20]));
            assert_eq!(*offset, 0);
            assert_eq!(&data[..], b"ABCDEFGH");
        }
        other => panic!("unexpected actions {:?}", other),
    }
    assert!(session.has_piece(0));
    assert_eq!(session.bitfield_bytes(), &[0b10000000]);
    assert!(session.is_complete());
    // Nothing is left to ask for.
    let actions = session.handle(TorrentMessage::GetTask(p));
    assert!(matches!(&actions[..], [TorrentAction::Task { blocks: None, .. }]));
}

#[test]
fn hash_mismatch_returns_the_piece() {
    let mut session = Torrent::new(single_piece_torrent(), 50);
    let p = peer(1);
    session.handle(TorrentMessage::PeerConnected(p));
    session.handle(TorrentMessage::PeerBitfield {
        peer_addr: p,
        peer_bf: bitfield(&[0b10000000], 1),
    });
    session.handle(TorrentMessage::GetTask(p));

    let block = Block { index: 0, begin: 0, data: Bytes::from_static(b"ABCDEFGX") };
    let actions = session.handle(TorrentMessage::Piece(p, block));
    assert!(actions.is_empty());
    assert!(!session.has_piece(0));
    assert_eq!(session.bitfield_bytes(), &[0u8]);
    assert!(!session.is_complete());

    // The piece can be asked for again, and the right bytes complete it.
    let actions = session.handle(TorrentMessage::GetTask(p));
    assert!(matches!(&actions[..], [TorrentAction::Task { blocks: Some(_), .. }]));
    let block = Block { index: 0, begin: 0, data: Bytes::from_static(b"ABCDEFGH") };
    let actions = session.handle(TorrentMessage::Piece(p, block));
    assert!(matches!(&actions[..], [TorrentAction::WriteBlock { offset: 0, .. }]));
    assert!(session.is_complete());
}

#[test]
fn pieces_are_written_at_their_place() {
    let mut session = Torrent::new(two_piece_torrent(), 50);
    let p = peer(1);
    session.handle(TorrentMessage::PeerBitfield {
        peer_addr: p,
        peer_bf: bitfield(&[0b11000000], 2),
    });
    // The last piece is shorter: it is complete after four bytes.
    let half = Block { index: 1, begin: 0, data: Bytes::from_static(b"IJ") };
    assert!(session.handle(TorrentMessage::Piece(p, half)).is_empty());
    let rest = Block { index: 1, begin: 2, data: Bytes::from_static(b"KL") };
    let actions = session.handle(TorrentMessage::Piece(p, rest));
    match &actions[..] {
        [TorrentAction::WriteBlock { offset, data, .. }] => {
            assert_eq!(*offset, 8);
            assert_eq!(&data[..], b"IJKL");
        }
        other => panic!("unexpected actions {:?}", other),
    }
    assert!(session.has_piece(1));
    assert!(!session.has_piece(0));
    assert_eq!(session.bitfield_bytes(), &[0b01000000]);
    assert!(!session.is_complete());
    // A block for a piece that is complete is dropped.
    let again = Block { index: 1, begin: 0, data: Bytes::from_static(b"IJKL") };
    assert!(session.handle(TorrentMessage::Piece(p, again)).is_empty());
}

#[test]
fn peer_list_connects_to_new_peers_within_the_limit() {
    let mut session = Torrent::new(two_piece_torrent(), 3);
    session.handle(TorrentMessage::PeerConnected(peer(2)));
    let actions = session.handle(TorrentMessage::PeerList(vec![
        peer(1),
        peer(2),
        peer(3),
        peer(4),
    ]));
    let connects: Vec<PeerAddr> = actions
        .iter()
        .map(|a| match a {
            TorrentAction::Connect(addr) => *addr,
            other => panic!("unexpected action {:?}", other),
        })
        .collect();
    // One peer is connected, so there is room for two: peer 2 is passed over.
    assert_eq!(connects, vec![peer(1), peer(3)]);
    session.handle(TorrentMessage::PeerConnected(peer(1)));
    session.handle(TorrentMessage::PeerConnected(peer(3)));
    assert_eq!(session.connected_peers(), 3);
    assert!(session.handle(TorrentMessage::PeerList(vec![peer(4)])).is_empty());
    session.handle(TorrentMessage::PeerDisconnected(peer(1)));
    assert_eq!(session.connected_peers(), 2);
    assert_eq!(session.handle(TorrentMessage::PeerList(vec![peer(4)])).len(), 1);
}

#[test]
fn disconnect_frees_the_pieces_of_the_lost_peer() {
    let mut session = Torrent::new(two_piece_torrent(), 50);
    let a = peer(1);
    let b = peer(2);
    for p in [a, b] {
        session.handle(TorrentMessage::PeerConnected(p));
        session.handle(TorrentMessage::PeerBitfield {
            peer_addr: p,
            peer_bf: bitfield(&[0b10000000], 2),
        });
    }
    // Piece 0 goes to peer a; nothing is left for peer b.
    let actions = session.handle(TorrentMessage::GetTask(a));
    assert!(matches!(&actions[..], [TorrentAction::Task { blocks: Some(_), .. }]));
    let actions = session.handle(TorrentMessage::GetTask(b));
    assert!(matches!(&actions[..], [TorrentAction::Task { blocks: None, .. }]));
    // Peer a delivers half of it and is lost.
    let part = Block { index: 0, begin: 0, data: Bytes::from_static(b"ABCD") };
    session.handle(TorrentMessage::Piece(a, part));
    session.handle(TorrentMessage::PeerDisconnected(a));
    // Now peer b gets the piece, and its assembly starts afresh.
    let actions = session.handle(TorrentMessage::GetTask(b));
    assert!(matches!(&actions[..], [TorrentAction::Task { blocks: Some(_), .. }]));
    let part = Block { index: 0, begin: 4, data: Bytes::from_static(b"EFGH") };
    assert!(session.handle(TorrentMessage::Piece(b, part)).is_empty());
    let part = Block { index: 0, begin: 0, data: Bytes::from_static(b"ABCD") };
    let actions = session.handle(TorrentMessage::Piece(b, part));
    assert!(matches!(&actions[..], [TorrentAction::WriteBlock { offset: 0, .. }]));
}

#[test]
fn have_is_answered_only_on_request() {
    let mut session = Torrent::new(two_piece_torrent(), 50);
    let p = peer(1);
    session.handle(TorrentMessage::PeerBitfield { peer_addr: p, peer_bf: bitfield(&[0], 2) });
    assert!(session.handle(TorrentMessage::PeerHave(p, 1, false)).is_empty());
    let actions = session.handle(TorrentMessage::PeerHave(p, 0, true));
    assert!(matches!(&actions[..], [TorrentAction::Interest { interested: true, .. }]));
    // An unknown peer is of no interest.
    let actions = session.handle(TorrentMessage::PeerHave(peer(9), 0, true));
    assert!(matches!(&actions[..], [TorrentAction::Interest { interested: false, .. }]));
}

#[test]
fn verdict_on_a_piece_is_settled() {
    let mut session = Torrent::new(two_piece_torrent(), 50);
    assert!(session.piece_validation(0, &Bytes::from_static(b"ABCDEFGH")));
    assert!(!session.piece_validation(0, &Bytes::from_static(b"ABCDEFGh")));
    assert!(!session.piece_validation(1, &Bytes::from_static(b"ABCDEFGH")));
    assert!(session.piece_validation(1, &Bytes::from_static(b"IJKL")));
    assert!(session.try_write_piece(1, Bytes::from_static(b"IJKL"), false).is_none());
    assert!(!session.has_piece(1));
    let write = session.try_write_piece(1, Bytes::from_static(b"IJKL"), true).unwrap();
    assert_eq!(write.piece, 1);
    assert_eq!(write.offset, 8);
    assert_eq!(&write.data[..], b"IJKL");
    assert!(session.has_piece(1));
}

#[test]
fn failed_write_asks_for_the_piece_again() {
    let mut session = Torrent::new(two_piece_torrent(), 50);
    let p = peer(1);
    session.handle(TorrentMessage::PeerBitfield {
        peer_addr: p,
        peer_bf: bitfield(&[0b11000000], 2),
    });
    let whole = Block { index: 1, begin: 0, data: Bytes::from_static(b"IJKL") };
    let actions = session.handle(TorrentMessage::Piece(p, whole));
    assert!(matches!(&actions[..], [TorrentAction::WriteBlock { piece: 1, offset: 8, .. }]));
    assert!(session.has_piece(1));
    // A failure for a piece that was not written changes nothing.
    assert!(session.handle(TorrentMessage::WriteFailed(0)).is_empty());
    assert!(session.handle(TorrentMessage::WriteFailed(7)).is_empty());
    assert!(session.has_piece(1));
    // The failure of the write takes the piece back.
    assert!(session.handle(TorrentMessage::WriteFailed(1)).is_empty());
    assert!(!session.has_piece(1));
    assert_eq!(session.bitfield_bytes(), &[0u8]);
    assert!(session.bitfield_to_send().is_none());
    // It is assembled afresh and can be completed again.
    let again = Block { index: 1, begin: 0, data: Bytes::from_static(b"IJKL") };
    let actions = session.handle(TorrentMessage::Piece(p, again));
    assert!(matches!(&actions[..], [TorrentAction::WriteBlock { piece: 1, .. }]));
    assert_eq!(session.bitfield_to_send().unwrap().get_inner(), &[0b01000000]);
}

#[test]
fn availability_stays_exact_whatever_peers_announce() {
    let mut session = Torrent::new(two_piece_torrent(), 50);
    let a = peer(1);
    let b = peer(2);
    session.handle(TorrentMessage::PeerBitfield { peer_addr: a, peer_bf: bitfield(&[0b10000000], 2) });
    session.handle(TorrentMessage::PeerBitfield { peer_addr: b, peer_bf: bitfield(&[0b11000000], 2) });
    assert_eq!((session.availability(0), session.availability(1)), (Some(2), Some(1)));
    // A peer that announces its pieces again is counted once.
    session.handle(TorrentMessage::PeerBitfield { peer_addr: a, peer_bf: bitfield(&[0b11000000], 2) });
    assert_eq!((session.availability(0), session.availability(1)), (Some(2), Some(2)));
    session.handle(TorrentMessage::PeerBitfield { peer_addr: a, peer_bf: bitfield(&[0b01000000], 2) });
    assert_eq!((session.availability(0), session.availability(1)), (Some(1), Some(2)));
    // A bitfield that speaks of more pieces counts for those that exist.
    let actions = session.handle(TorrentMessage::PeerBitfield {
        peer_addr: peer(3),
        peer_bf: bitfield(&[0b11100000], 3),
    });
    assert!(matches!(&actions[..], [TorrentAction::Interest { interested: true, .. }]));
    assert_eq!((session.availability(0), session.availability(1)), (Some(2), Some(3)));
    // Announcements of single pieces count once, and only for pieces that exist.
    session.handle(TorrentMessage::PeerHave(a, 0, false));
    session.handle(TorrentMessage::PeerHave(a, 0, false));
    session.handle(TorrentMessage::PeerHave(a, 2, false));
    session.handle(TorrentMessage::PeerHave(peer(9), 0, false));
    assert_eq!((session.availability(0), session.availability(1)), (Some(3), Some(3)));
    assert_eq!(session.availability(2), None);
    session.handle(TorrentMessage::PeerDisconnected(b));
    session.handle(TorrentMessage::PeerDisconnected(b));
    assert_eq!((session.availability(0), session.availability(1)), (Some(2), Some(2)));
    session.handle(TorrentMessage::PeerDisconnected(a));
    assert_eq!((session.availability(0), session.availability(1)), (Some(1), Some(1)));
    session.handle(TorrentMessage::PeerDisconnected(peer(3)));
    assert_eq!((session.availability(0), session.availability(1)), (Some(0), Some(0)));
}

#[test]
fn a_piece_is_assembled_then_judged_then_settled() {
    let torrent = two_piece_torrent();
    let mut session = Torrent::new(torrent.clone(), 50);
    let p = peer(1);
    session.handle(TorrentMessage::PeerBitfield { peer_addr: p, peer_bf: bitfield(&[0b11000000], 2) });
    // The first half of the first piece completes nothing.
    let first = Block { index: 0, begin: 0, data: Bytes::from_static(b"ABCD") };
    assert!(session.on_block(first).is_none());
    let second = Block { index: 0, begin: 4, data: Bytes::from_static(b"EFGH") };
    let (piece, data) = session.on_block(second).unwrap();
    assert_eq!((piece, &data[..]), (0, &b"ABCDEFGH"[..]));
    // Until the verdict the piece does not count.
    assert!(!session.has_piece(0));
    assert_eq!(session.bitfield_bytes(), &[0u8]);
    assert!(hash_matches(&data, &torrent.info.pieces[0]));
    assert!(!hash_matches(&data, &torrent.info.pieces[1]));
    assert!(!hash_matches(&Bytes::from_static(b"ABCDEFGX"), &torrent.info.pieces[0]));
    assert_eq!(session.piece_validation(0, &data), true);
    let write = session.try_write_piece(piece, data, true).unwrap();
    assert_eq!((write.piece, write.offset, &write.data[..]), (0, 0, &b"ABCDEFGH"[..]));
    assert!(session.has_piece(0));
    assert_eq!(session.bitfield_bytes(), &[0b10000000]);

    // The last piece, with bytes that do not have its hash.
    let wrong = Block { index: 1, begin: 0, data: Bytes::from_static(b"IJKX") };
    let (piece, data) = session.on_block(wrong).unwrap();
    assert_eq!(piece, 1);
    let valid = hash_matches(&data, &torrent.info.pieces[1]);
    assert!(!valid);
    assert!(session.try_write_piece(piece, data, valid).is_none());
    assert!(!session.has_piece(1));
    assert_eq!(session.bitfield_bytes(), &[0b10000000]);
    assert!(!session.is_complete());
}

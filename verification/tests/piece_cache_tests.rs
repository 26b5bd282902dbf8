use std::sync::Arc;

use bittorrent_core::metainfo::{Info, TorrentInfo};
use bittorrent_core::piece_cache::PieceCache;
use bittorrent_core::piece_picker::Block;
use bittorrent_core::types::{InfoHash, PieceHash};
use bytes::BytesMut;

fn create_mock_torrent_info() -> Arc<TorrentInfo> {
    // 3 pieces of 16KB each
    let piece_length = 16384;
    let total_length = 3 * piece_length;

    let mock_hash = [0u8; 20];
    let pieces = vec![PieceHash(mock_hash); 3];

    let info = Info {
        length: total_length as i64,
        name: "test_file".to_string(),
        piece_length: piece_length as i64,
        pieces,
    };

    let mock_hash_array = [0u8; 20];

    Arc::new(TorrentInfo {
        announce: "http://example.com/announce".to_string(),
        announce_list: None,
        info,
        info_hash: InfoHash::from(mock_hash_array),
    })
}

#[test]
fn insert_block() {
    let torrent_info = create_mock_torrent_info();
    let mut cache = PieceCache::from(torrent_info);

    let data = BytesMut::from(&[42u8; 8192][..]).freeze();
    let block = Block {
        index: 0,
        begin: 0,
        data,
    };

    let result = cache.insert_block(block);

    // Half of the piece: not complete yet.
    assert!(result.is_none());

    assert_eq!(cache.downloaded(0).unwrap(), 8192);
    let buffer = cache.piece_bytes(0).unwrap();
    for i in 0..8192 {
        assert_eq!(buffer[i], 42);
    }
}

#[test]
fn insert_block_yields_download_completed() {
    let torrent_info = create_mock_torrent_info();
    let mut cache = PieceCache::from(torrent_info);

    let data1 = BytesMut::from(&[1u8; 8192][..]).freeze();
    let block1 = Block {
        index: 0,
        begin: 0,
        data: data1,
    };
    let result1 = cache.insert_block(block1);
    assert!(result1.is_none());

    let data2 = BytesMut::from(&[2u8; 8192][..]).freeze();
    let block2 = Block {
        index: 0,
        begin: 8192,
        data: data2,
    };

    let result2 = cache.insert_block(block2);

    assert!(result2.is_some());
    let (index, data) = result2.unwrap();
    assert_eq!(index, 0);
    assert_eq!(data.len(), 16384);

    for i in 0..8192 {
        assert_eq!(data[i], 1);
    }
    for i in 8192..16384 {
        assert_eq!(data[i], 2);
    }
}

#[test]
fn insert_block_different_pieces() {
    let torrent_info = create_mock_torrent_info();
    let mut cache = PieceCache::from(torrent_info);

    let data0 = BytesMut::from(&[1u8; 4096][..]).freeze();
    let block0 = Block {
        index: 0,
        begin: 0,
        data: data0,
    };
    let result0 = cache.insert_block(block0);
    assert!(result0.is_none());

    let data1 = BytesMut::from(&[2u8; 4096][..]).freeze();
    let block1 = Block {
        index: 1,
        begin: 0,
        data: data1,
    };
    let result1 = cache.insert_block(block1);
    assert!(result1.is_none());

    assert_eq!(cache.downloaded(0).unwrap(), 4096);
    let piece0 = cache.piece_bytes(0).unwrap();
    for i in 0..4096 {
        assert_eq!(piece0[i], 1);
    }

    assert_eq!(cache.downloaded(1).unwrap(), 4096);
    let piece1 = cache.piece_bytes(1).unwrap();
    for i in 0..4096 {
        assert_eq!(piece1[i], 2);
    }
}

#[test]
fn test_piece_removed_after_completion() {
    let torrent_info = create_mock_torrent_info();
    let mut cache = PieceCache::from(torrent_info);

    assert_eq!(cache.len(), 3);
    assert!(cache.contains(0));
    assert!(cache.contains(1));
    assert!(cache.contains(2));

    let data = BytesMut::from(&[1u8; 16384][..]).freeze();
    let block = Block {
        index: 0,
        begin: 0,
        data,
    };

    let result = cache.insert_block(block);
    assert!(result.is_some());

    assert_eq!(cache.len(), 2);
    assert!(!cache.contains(0));
    assert!(cache.contains(1));
    assert!(cache.contains(2));

    let data = BytesMut::from(&[2u8; 16384][..]).freeze();
    let block = Block {
        index: 1,
        begin: 0,
        data,
    };

    let result = cache.insert_block(block);
    assert!(result.is_some());

    assert_eq!(cache.len(), 1);
    assert!(!cache.contains(0));
    assert!(!cache.contains(1));
    assert!(cache.contains(2));
}

#[test]
fn test_reinsert_completed_piece() {
    let torrent_info = create_mock_torrent_info();
    let mut cache = PieceCache::from(torrent_info.clone());

    let data = BytesMut::from(&[1u8; 16384][..]).freeze();
    let block = Block {
        index: 0,
        begin: 0,
        data,
    };

    let result = cache.insert_block(block);
    assert!(result.is_some());
    assert!(!cache.contains(0));

    let data = BytesMut::from(&[2u8; 1024][..]).freeze();
    let block = Block {
        index: 0,
        begin: 0,
        data,
    };

    let result = cache.insert_block(block);
    assert!(result.is_none());

    assert!(!cache.contains(0));

    let new_cache = PieceCache::from(torrent_info);

    assert!(new_cache.contains(0));
}

#[test]
fn insert_overlapping_blocks() {
    let torrent_info = create_mock_torrent_info();
    let mut cache = PieceCache::from(torrent_info);

    let data1 = BytesMut::from(&[1u8; 8192][..]).freeze();
    let block1 = Block {
        index: 0,
        begin: 0,
        data: data1,
    };
    cache.insert_block(block1);

    // The last 4096 bytes of the first block and 4096 new bytes.
    let data2 = BytesMut::from(&[2u8; 8192][..]).freeze();
    let block2 = Block {
        index: 0,
        begin: 4096,
        data: data2,
    };
    let result = cache.insert_block(block2);

    // 8192 + 8192 = 16384 bytes were delivered: the piece counts as complete.
    assert!(result.is_some());
    let (index, data) = result.unwrap();
    assert_eq!(index, 0);

    for i in 0..4096 {
        assert_eq!(data[i], 1);
    }
    for i in 4096..12288 {
        assert_eq!(data[i], 2);
    }

    assert!(!cache.contains(0));
}

#[test]
fn block_past_the_end_of_its_piece_is_dropped() {
    let mut cache = PieceCache::from(create_mock_torrent_info());
    let block = Block { index: 1, begin: 16000, data: BytesMut::from(&[7u8; 385][..]).freeze() };
    assert!(cache.insert_block(block).is_none());
    assert_eq!(cache.downloaded(1).unwrap(), 0);
    assert!(cache.piece_bytes(1).unwrap().iter().all(|&b| b == 0));
    let block = Block { index: 1, begin: 16000, data: BytesMut::from(&[7u8; 384][..]).freeze() };
    assert!(cache.insert_block(block).is_none());
    assert_eq!(cache.downloaded(1).unwrap(), 384);
    assert_eq!(cache.piece_bytes(1).unwrap()[16383], 7);
    let block = Block { index: 5, begin: 0, data: BytesMut::from(&[7u8; 4][..]).freeze() };
    assert!(cache.insert_block(block).is_none());
    assert_eq!(cache.len(), 3);
}

#[test]
fn later_writes_win_and_reset_starts_afresh() {
    let mut cache = PieceCache::from(create_mock_torrent_info());
    cache.insert_block(Block { index: 2, begin: 10, data: BytesMut::from(&[1u8; 10][..]).freeze() });
    cache.insert_block(Block { index: 2, begin: 15, data: BytesMut::from(&[2u8; 10][..]).freeze() });
    let bytes = cache.piece_bytes(2).unwrap();
    assert_eq!(&bytes[8..27], &[0, 0, 1, 1, 1, 1, 1, 2, 2, 2, 2, 2, 2, 2, 2, 2, 2, 0, 0]);
    assert_eq!(cache.downloaded(2).unwrap(), 20);
    cache.reset_piece(2, 16384);
    assert_eq!(cache.downloaded(2).unwrap(), 0);
    assert!(cache.piece_bytes(2).unwrap().iter().all(|&b| b == 0));
    assert_eq!(cache.piece_bytes(2).unwrap().len(), 16384);
}

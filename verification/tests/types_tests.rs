use bittorrent_core::config::{
    default_listen_port, default_max_peers, default_save_directory, default_socket_path, Settings,
};
use bittorrent_core::daemon::{frame_prefix, frame_size};
use bittorrent_core::types::{
    generate_peer_id, peer_id_with, same_hash, HexFault, InfoHash, InfoHashError, PeerAddr,
    PieceHash, PieceHashError,
};

#[test]
fn hashes_take_exactly_twenty_bytes() {
    let bytes: Vec<u8> = (1..=20).collect();
    assert_eq!(PieceHash::try_from(&bytes[..]).unwrap().0.to_vec(), bytes);
    assert_eq!(PieceHash::try_from(&bytes[..19]), Err(PieceHashError::InvalidLenght));
    assert_eq!(PieceHash::try_from(&[0u8; 21][..]), Err(PieceHashError::InvalidLenght));
    assert_eq!(InfoHash::try_from(&bytes[..]).unwrap().as_bytes().to_vec(), bytes);
    assert_eq!(InfoHash::try_from(&bytes[..3]), Err(InfoHashError::InvalidHashLength(3)));
    assert_eq!(InfoHash::from([7u8; 20]).0, [7u8; 20]);
    assert!(same_hash(&[7u8; 20], &[7u8; 20]));
    let mut other = [7u8; 20];
    other[19] = 8;
    assert!(!same_hash(&[7u8; 20], &other));
}

#[test]
fn info_hash_in_hexadecimal() {
    let text = "d69f91e6b2ae4c542468d1073a71d4ea13879a7f";
    let hash = InfoHash::from_hex(text).unwrap();
    assert_eq!(hash.0[0], 0xd6);
    assert_eq!(hash.0[19], 0x7f);
    assert_eq!(hash.to_hex(), text);
    assert_eq!(InfoHash::from_hex(&text.to_uppercase()).unwrap(), hash);
    assert_eq!(InfoHash([0x0A; 20]).to_hex(), "0a".repeat(20));
    assert_eq!(InfoHash::from_hex("abc"), Err(InfoHashError::InvalidHexLength(3)));
    assert_eq!(
        InfoHash::from_hex(&"0".repeat(41)),
        Err(InfoHashError::InvalidHexLength(41))
    );
    let mut bad = text.to_string();
    bad.replace_range(7..8, "g");
    bad.replace_range(30..31, "z");
    assert_eq!(
        InfoHash::from_hex(&bad),
        Err(InfoHashError::InvalidHexEncoding(HexFault::InvalidHexCharacter { c: 'g', index: 7 }))
    );
}

#[test]
fn peers_are_filed_under_distinct_numbers() {
    let a = PeerAddr::new([192, 168, 1, 1], 8080);
    assert_eq!(a.key(), 0xC0A8_0101_1F90);
    assert_eq!(PeerAddr::new([0, 0, 0, 0], 0).key(), 0);
    assert_eq!(PeerAddr::new([255, 255, 255, 255], 65535).key(), 0xFFFF_FFFF_FFFF);
    assert_ne!(a.key(), PeerAddr::new([192, 168, 1, 1], 8081).key());
    assert_ne!(a.key(), PeerAddr::new([192, 168, 1, 2], 8080).key());
    assert_ne!(
        PeerAddr::new([1, 0, 0, 0], 0).key(),
        PeerAddr::new([0, 1, 0, 0], 0).key()
    );
}

#[test]
fn settings_have_their_defaults() {
    assert_eq!(default_listen_port(), 6881);
    assert_eq!(default_save_directory(), "/tmp/bittorrent_downloads");
    assert_eq!(default_socket_path(), "/tmp/bittorent-protocol.tmp");
    assert_eq!(default_max_peers(), 50);
    let settings = Settings::defaults();
    assert_eq!(settings.listen_port, 6881);
    assert_eq!(settings.max_peer_connections_per_torrent, 50);
    assert_eq!(settings.socket_path, "/tmp/bittorent-protocol.tmp");
    assert_eq!(settings.save_directory, "/tmp/bittorrent_downloads");
}

#[test]
fn frames_of_the_daemon_announce_their_size() {
    assert_eq!(frame_prefix(0), [0, 0, 0, 0]);
    assert_eq!(frame_prefix(0x01020304), [1, 2, 3, 4]);
    assert_eq!(frame_prefix(u32::MAX), [255; 4]);
    assert_eq!(frame_size([1, 2, 3, 4]), 0x01020304);
    assert_eq!(frame_size([255; 4]), u32::MAX);
    for n in [0u32, 1, 255, 256, 65535, 65536, 0x00FF_FFFF, 0x0100_0000, 0x7FFF_FFFF] {
        assert_eq!(frame_prefix(n), n.to_be_bytes());
        assert_eq!(frame_size(n.to_be_bytes()), n);
    }
}

#[test]
fn peer_id_carries_the_client_tag() {
    let id = peer_id_with([7u8; 17]);
    assert_eq!(&id.0[..3], b"-RS");
    assert_eq!(&id.0[3..], &[7u8; 17]);
    let a = generate_peer_id();
    let b = generate_peer_id();
    assert_eq!(&a.0[..3], b"-RS");
    assert_eq!(&b.0[..3], b"-RS");
    assert_ne!(a, b);
}

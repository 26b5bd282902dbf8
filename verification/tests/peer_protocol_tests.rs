use bittorrent_core::peer_protocol::{
    Handshake, Message, MessageError, HANDSHAKE_LEN, PSTRLEN,
};
use bittorrent_core::piece_picker::{Block, BlockInfo};
use bittorrent_core::types::{InfoHash, PeerId};
use bytes::{BufMut, Bytes, BytesMut};

const PSTR: &[u8; 19] = b"BitTorrent protocol";

#[test]
fn handshake_serialization() {
    let peer_id = PeerId(*b"-TR2920-abcdefghijkl");
    let info_hash = InfoHash([
        1, 2, 3, 4, 5, 6, 7, 8, 9, 10, 11, 12, 13, 14, 15, 16, 17, 18, 19, 20,
    ]);
    let handshake = Message::Handshake { peer_id, info_hash };
    let mut buf = BytesMut::with_capacity(68);
    handshake.to_bytes(&mut buf);

    assert_eq!(buf[0], PSTRLEN);
    assert_eq!(&buf[1..20], PSTR);
    for i in 20..28 {
        assert_eq!(buf[i], 0);
    }
    assert_eq!(&buf[28..48], &info_hash.0);
    assert_eq!(&buf[48..68], &peer_id.0);
    assert_eq!(buf.len(), 68);
}

#[test]
fn keep_alive_serialization() {
    let keep_alive = Message::KeepAlive;
    let mut buf = BytesMut::with_capacity(4);
    keep_alive.to_bytes(&mut buf);
    assert_eq!(buf[0..4], [0, 0, 0, 0]);
    assert_eq!(buf.len(), 4);
}

#[test]
fn choke_serialization() {
    let choke = Message::Choke;
    let mut buf = BytesMut::with_capacity(5);
    choke.to_bytes(&mut buf);
    assert_eq!(buf[0..4], [0, 0, 0, 1]);
    assert_eq!(buf[4], 0);
    assert_eq!(buf.len(), 5);
}

#[test]
fn unchoke_serialization() {
    let unchoke = Message::Unchoke;
    let mut buf = BytesMut::with_capacity(5);
    unchoke.to_bytes(&mut buf);
    assert_eq!(buf[0..4], [0, 0, 0, 1]);
    assert_eq!(buf[4], 1);
    assert_eq!(buf.len(), 5);
}

#[test]
fn interested_serialization() {
    let interested = Message::Interested;
    let mut buf = BytesMut::with_capacity(5);
    interested.to_bytes(&mut buf);
    assert_eq!(buf[0..4], [0, 0, 0, 1]);
    assert_eq!(buf[4], 2);
    assert_eq!(buf.len(), 5);
}

#[test]
fn not_interested_serialization() {
    let not_interested = Message::NotInterested;
    let mut buf = BytesMut::with_capacity(5);
    not_interested.to_bytes(&mut buf);
    assert_eq!(buf[0..4], [0, 0, 0, 1]);
    assert_eq!(buf[4], 3);
    assert_eq!(buf.len(), 5);
}

#[test]
fn bitfield_serialization() {
    let bitfield = vec![0, 1, 2, 3];
    let message = Message::Bitfield(bitfield);
    let mut buf = BytesMut::with_capacity(9);
    message.to_bytes(&mut buf);
    assert_eq!(buf[0..4], [0, 0, 0, 5]);
    assert_eq!(buf[4], 5);
    assert_eq!(buf[5..9], [0, 1, 2, 3]);
    assert_eq!(buf.len(), 9);
}

#[test]
fn test_handshake_deserialize() {
    let peer_id = PeerId(*b"-TR2920-abcdefghijkl");
    let info_hash = InfoHash([
        1, 2, 3, 4, 5, 6, 7, 8, 9, 10, 11, 12, 13, 14, 15, 16, 17, 18, 19, 20,
    ]);

    let mut buf = BytesMut::with_capacity(68);
    buf.put_u8(PSTRLEN);
    buf.put_slice(PSTR);
    buf.put_bytes(0, 8);
    buf.put_slice(&info_hash.0);
    buf.put_slice(&peer_id.0);

    let message = Message::from_bytes(&mut buf);

    assert!(message.is_some());
    if let Some(Message::Handshake {
        peer_id: decoded_peer_id,
        info_hash: decoded_info_hash,
    }) = message
    {
        assert_eq!(decoded_peer_id.0, peer_id.0);
        assert_eq!(decoded_info_hash.0, info_hash.0);
    } else {
        panic!("Decoded message is not a handshake!");
    }

    assert_eq!(buf.len(), 0);
}

fn encoded(message: &Message) -> BytesMut {
    let mut buf = BytesMut::new();
    message.to_bytes(&mut buf);
    buf
}

fn same(a: &Message, b: &Message) -> bool {
    match (a, b) {
        (Message::KeepAlive, Message::KeepAlive)
        | (Message::Choke, Message::Choke)
        | (Message::Unchoke, Message::Unchoke)
        | (Message::Interested, Message::Interested)
        | (Message::NotInterested, Message::NotInterested) => true,
        (Message::Have { piece_index: x }, Message::Have { piece_index: y }) => x == y,
        (Message::Bitfield(x), Message::Bitfield(y)) => x == y,
        (Message::Request(x), Message::Request(y)) => x == y,
        (Message::Cancel(x), Message::Cancel(y)) => x == y,
        (Message::Piece(x), Message::Piece(y)) => x == y,
        (
            Message::Handshake { peer_id: p, info_hash: h },
            Message::Handshake { peer_id: q, info_hash: g },
        ) => p == q && h == g,
        _ => false,
    }
}

fn framed_messages() -> Vec<Message> {
    vec![
        Message::KeepAlive,
        Message::Choke,
        Message::Unchoke,
        Message::Interested,
        Message::NotInterested,
        Message::Have { piece_index: 0x01020304 },
        Message::Bitfield(vec![0xF0, 0x0F, 0x80]),
        Message::Bitfield(vec![]),
        Message::Request(BlockInfo { index: 7, begin: 16384, length: 16384 }),
        Message::Piece(Block { index: 3, begin: 32768, data: Bytes::from_static(b"ABCDEFGH") }),
        Message::Piece(Block { index: 0, begin: 0, data: Bytes::new() }),
        Message::Cancel(BlockInfo { index: u32::MAX, begin: 1, length: 2 }),
    ]
}

#[test]
fn exact_bytes_of_framed_messages() {
    assert_eq!(
        &encoded(&Message::Have { piece_index: 0x01020304 })[..],
        &[0, 0, 0, 5, 4, 1, 2, 3, 4]
    );
    assert_eq!(
        &encoded(&Message::Request(BlockInfo { index: 1, begin: 16384, length: 16384 }))[..],
        &[0, 0, 0, 13, 6, 0, 0, 0, 1, 0, 0, 0x40, 0, 0, 0, 0x40, 0]
    );
    assert_eq!(
        &encoded(&Message::Cancel(BlockInfo { index: 256, begin: 0, length: 7 }))[..],
        &[0, 0, 0, 13, 8, 0, 0, 1, 0, 0, 0, 0, 0, 0, 0, 0, 7]
    );
    assert_eq!(
        &encoded(&Message::Piece(Block {
            index: 2,
            begin: 3,
            data: Bytes::from_static(b"xyz")
        }))[..],
        &[0, 0, 0, 12, 7, 0, 0, 0, 2, 0, 0, 0, 3, b'x', b'y', b'z']
    );
}

#[test]
fn every_framed_message_decodes_to_itself() {
    for message in framed_messages() {
        let mut buf = encoded(&message);
        let prefix = u32::from_be_bytes([buf[0], buf[1], buf[2], buf[3]]) as usize;
        assert_eq!(prefix + 4, buf.len());
        buf.put_slice(&[9, 9, 9]);
        let decoded = Message::decode(&mut buf).unwrap().unwrap();
        assert!(same(&decoded, &message));
        assert_eq!(&buf[..], &[9, 9, 9]);
    }
}

#[test]
fn incomplete_frames_wait_for_more() {
    for message in framed_messages() {
        let whole = encoded(&message);
        for cut in 0..whole.len() {
            let mut part = BytesMut::from(&whole[..cut]);
            assert!(matches!(Message::decode(&mut part), Ok(None)));
            assert_eq!(&part[..], &whole[..cut]);
        }
    }
}

#[test]
fn unknown_message_id_is_an_error() {
    let mut buf = BytesMut::from(&[0u8, 0, 0, 3, 9, 0x1A, 0xE1][..]);
    assert_eq!(
        Message::decode(&mut buf).unwrap_err(),
        MessageError::UnknownMessageId(9)
    );
    assert_eq!(buf.len(), 7);
    assert!(Message::from_bytes(&mut buf).is_none());
    assert_eq!(buf.len(), 7);
}

#[test]
fn length_that_does_not_suit_the_id_is_an_error() {
    let mut buf = BytesMut::from(&[0u8, 0, 0, 2, 0, 0][..]);
    assert_eq!(
        Message::decode(&mut buf).unwrap_err(),
        MessageError::InvalidLength { id: 0, length: 2 }
    );
    let mut buf = BytesMut::from(&[0u8, 0, 0, 4, 4, 0, 0, 1][..]);
    assert_eq!(
        Message::decode(&mut buf).unwrap_err(),
        MessageError::InvalidLength { id: 4, length: 4 }
    );
    let mut buf = BytesMut::from(&[0u8, 0, 0, 8, 7, 0, 0, 0, 0, 0, 0, 0][..]);
    assert_eq!(
        Message::decode(&mut buf).unwrap_err(),
        MessageError::InvalidLength { id: 7, length: 8 }
    );
}

#[test]
fn two_frames_come_out_one_by_one() {
    let mut buf = encoded(&Message::Unchoke);
    Message::Have { piece_index: 5 }.to_bytes(&mut buf);
    assert!(matches!(Message::decode(&mut buf), Ok(Some(Message::Unchoke))));
    assert!(matches!(
        Message::decode(&mut buf),
        Ok(Some(Message::Have { piece_index: 5 }))
    ));
    assert!(matches!(Message::decode(&mut buf), Ok(None)));
}

#[test]
fn handshake_struct_round_trip() {
    let handshake = Handshake::new(PeerId(*b"-RS0001-zzzzzzzzzzzz"), InfoHash([7u8; 20]));
    let bytes = handshake.to_bytes();
    assert_eq!(bytes.len(), HANDSHAKE_LEN);
    assert_eq!(bytes[0], 19);
    assert_eq!(&bytes[1..20], PSTR);
    let back = Handshake::from_bytes(&bytes).unwrap();
    assert_eq!(back.peer_id, handshake.peer_id);
    assert_eq!(back.info_hash, handshake.info_hash);
}

#[test]
fn handshake_with_reserved_bits_is_accepted() {
    let mut bytes = Handshake::new(PeerId([1u8; 20]), InfoHash([2u8; 20])).to_bytes();
    bytes[25] = 0x10;
    bytes[27] = 0x05;
    assert!(Handshake::from_bytes(&bytes).is_some());
}

#[test]
fn malformed_handshakes_are_refused() {
    let good = Handshake::new(PeerId([1u8; 20]), InfoHash([2u8; 20])).to_bytes();
    let mut wrong_len = good.clone();
    wrong_len[0] = 18;
    assert!(Handshake::from_bytes(&wrong_len).is_none());
    let mut wrong_name = good.clone();
    wrong_name[19] = b'L';
    assert!(Handshake::from_bytes(&wrong_name).is_none());
    assert!(Handshake::from_bytes(&good[..67]).is_none());
    let mut long = good.clone();
    long.push(0);
    assert!(Handshake::from_bytes(&long).is_none());
}

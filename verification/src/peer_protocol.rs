//! The peer wire protocol: the fixed handshake and the length-prefixed
//! messages that follow it, as bytes.

use crate::buffer::{
    be_bytes, be_value, buf_as_slice, buf_freeze, buf_put_slice, buf_put_u32, buf_put_u8, buf_seq,
    buf_split_to, bytes_as_slice, bytes_seq,
};
use crate::piece_picker::{Block, BlockInfo};
use crate::types::{InfoHash, PeerId};
use bytes::{Bytes, BytesMut};
use vstd::prelude::*;
use vstd::slice::slice_subrange;

verus! {

/// Length of the protocol name.
pub const PSTRLEN: u8 = 19;

/// Length of a handshake in bytes.
pub const HANDSHAKE_LEN: usize = 68;

/// The protocol name, "BitTorrent protocol", as bytes.
pub open spec fn pstr() -> Seq<u8> {
    seq![
        66u8, 105u8, 116u8, 84u8, 111u8, 114u8, 114u8, 101u8, 110u8, 116u8, 32u8, 112u8, 114u8,
        111u8, 116u8, 111u8, 99u8, 111u8, 108u8,
    ]
}

/// `n` zero bytes.
pub open spec fn zeros(n: nat) -> Seq<u8> {
    Seq::new(n, |i: int| 0u8)
}

/// A message received from or sent to a peer.
#[derive(Debug, Clone)]
pub enum Message {
    Handshake { peer_id: PeerId, info_hash: InfoHash },
    KeepAlive,
    Choke,
    Unchoke,
    Interested,
    NotInterested,
    Have { piece_index: u32 },
    Bitfield(Vec<u8>),
    Request(BlockInfo),
    Piece(Block),
    Cancel(BlockInfo),
}

/// A message as a mathematical value.
pub enum MessageModel {
    Handshake { peer_id: Seq<u8>, info_hash: Seq<u8> },
    KeepAlive,
    Choke,
    Unchoke,
    Interested,
    NotInterested,
    Have { piece_index: u32 },
    Bitfield(Seq<u8>),
    Request(BlockInfo),
    Piece { index: u32, begin: u32, data: Seq<u8> },
    Cancel(BlockInfo),
}

/// Why a frame is no message.
#[derive(Debug, Clone, Copy, PartialEq, Eq, Structural)]
pub enum MessageError {
    /// The message id is none of those in use.
    UnknownMessageId(u8),
    /// The frame's length does not suit its message id.
    InvalidLength { id: u8, length: u32 },
}

impl View for Message {
    type V = MessageModel;

    open spec fn view(&self) -> MessageModel {
        match self {
            Message::Handshake { peer_id, info_hash } => MessageModel::Handshake {
                peer_id: peer_id.0@,
                info_hash: info_hash.0@,
            },
            Message::KeepAlive => MessageModel::KeepAlive,
            Message::Choke => MessageModel::Choke,
            Message::Unchoke => MessageModel::Unchoke,
            Message::Interested => MessageModel::Interested,
            Message::NotInterested => MessageModel::NotInterested,
            Message::Have { piece_index } => MessageModel::Have { piece_index: *piece_index },
            Message::Bitfield(bits) => MessageModel::Bitfield(bits@),
            Message::Request(info) => MessageModel::Request(*info),
            Message::Piece(block) => MessageModel::Piece {
                index: block.index,
                begin: block.begin,
                data: bytes_seq(block.data),
            },
            Message::Cancel(info) => MessageModel::Cancel(*info),
        }
    }
}

/// The 68 bytes of a handshake: the length of the protocol name, the name,
/// eight reserved zero bytes, the info hash and the peer id.
pub open spec fn handshake_bytes(peer_id: Seq<u8>, info_hash: Seq<u8>) -> Seq<u8> {
    seq![PSTRLEN] + pstr() + zeros(8) + info_hash + peer_id
}

/// A message id and its payload behind the four-byte length of both.
pub open spec fn frame(id: u8, payload: Seq<u8>) -> Seq<u8> {
    be_bytes((1 + payload.len()) as u32) + seq![id] + payload
}

/// The three numbers of a request or a cancel, four bytes each.
pub open spec fn block_info_bytes(info: BlockInfo) -> Seq<u8> {
    be_bytes(info.index) + be_bytes(info.begin) + be_bytes(info.length)
}

/// The bytes that stand for `m` on the wire.
pub open spec fn encode(m: MessageModel) -> Seq<u8> {
    match m {
        MessageModel::Handshake { peer_id, info_hash } => handshake_bytes(peer_id, info_hash),
        MessageModel::KeepAlive => be_bytes(0),
        MessageModel::Choke => frame(0, Seq::empty()),
        MessageModel::Unchoke => frame(1, Seq::empty()),
        MessageModel::Interested => frame(2, Seq::empty()),
        MessageModel::NotInterested => frame(3, Seq::empty()),
        MessageModel::Have { piece_index } => frame(4, be_bytes(piece_index)),
        MessageModel::Bitfield(bits) => frame(5, bits),
        MessageModel::Request(info) => frame(6, block_info_bytes(info)),
        MessageModel::Piece { index, begin, data } => frame(
            7,
            be_bytes(index) + be_bytes(begin) + data,
        ),
        MessageModel::Cancel(info) => frame(8, block_info_bytes(info)),
    }
}

/// The length of `m` behind its prefix fits the prefix's 32 bits.
pub open spec fn fits(m: MessageModel) -> bool {
    match m {
        MessageModel::Bitfield(bits) => 1 + bits.len() <= u32::MAX,
        MessageModel::Piece { index, begin, data } => 9 + data.len() <= u32::MAX,
        _ => true,
    }
}

/// The number that four bytes of `s` from `at` on spell, most significant first.
pub open spec fn be_at(s: Seq<u8>, at: int) -> u32 {
    be_value(s[at], s[at + 1], s[at + 2], s[at + 3])
}

/// The message that `body` holds, `body` being what follows a length prefix.
pub open spec fn parse_frame(body: Seq<u8>) -> Result<MessageModel, MessageError> {
    let n = body.len();
    if n == 0 {
        Ok(MessageModel::KeepAlive)
    } else {
        let id = body[0];
        let bad = Err::<MessageModel, MessageError>(
            MessageError::InvalidLength { id, length: n as u32 },
        );
        if id == 0 {
            if n == 1 {
                Ok(MessageModel::Choke)
            } else {
                bad
            }
        } else if id == 1 {
            if n == 1 {
                Ok(MessageModel::Unchoke)
            } else {
                bad
            }
        } else if id == 2 {
            if n == 1 {
                Ok(MessageModel::Interested)
            } else {
                bad
            }
        } else if id == 3 {
            if n == 1 {
                Ok(MessageModel::NotInterested)
            } else {
                bad
            }
        } else if id == 4 {
            if n == 5 {
                Ok(MessageModel::Have { piece_index: be_at(body, 1) })
            } else {
                bad
            }
        } else if id == 5 {
            Ok(MessageModel::Bitfield(body.subrange(1, n as int)))
        } else if id == 6 {
            if n == 13 {
                Ok(
                    MessageModel::Request(
                        BlockInfo {
                            index: be_at(body, 1),
                            begin: be_at(body, 5),
                            length: be_at(body, 9),
                        },
                    ),
                )
            } else {
                bad
            }
        } else if id == 7 {
            if n >= 9 {
                Ok(
                    MessageModel::Piece {
                        index: be_at(body, 1),
                        begin: be_at(body, 5),
                        data: body.subrange(9, n as int),
                    },
                )
            } else {
                bad
            }
        } else if id == 8 {
            if n == 13 {
                Ok(
                    MessageModel::Cancel(
                        BlockInfo {
                            index: be_at(body, 1),
                            begin: be_at(body, 5),
                            length: be_at(body, 9),
                        },
                    ),
                )
            } else {
                bad
            }
        } else {
            Err(MessageError::UnknownMessageId(id))
        }
    }
}

/// The handshake that `bytes` is, if it is one: exactly 68 bytes that start
/// with the length of the protocol name and the name. The reserved bytes may
/// hold anything.
pub open spec fn parse_handshake(bytes: Seq<u8>) -> Option<MessageModel> {
    if bytes.len() == HANDSHAKE_LEN && bytes[0] == PSTRLEN && bytes.subrange(1, 20) == pstr() {
        Some(
            MessageModel::Handshake {
                peer_id: bytes.subrange(48, 68),
                info_hash: bytes.subrange(28, 48),
            },
        )
    } else {
        None
    }
}

/// Four bytes written most significant first read back as the same number.
pub proof fn lemma_be_round_trip(v: u32)
    ensures
        be_bytes(v).len() == 4,
        be_at(be_bytes(v), 0) == v,
{
}

/// The layout of a handshake: 68 bytes, of which byte 0 is 19, bytes 1 to 19
/// the protocol name, bytes 20 to 27 zero, bytes 28 to 47 the info hash and
/// bytes 48 to 67 the peer id; and these bytes read back as the same handshake.
pub proof fn lemma_handshake_layout(peer_id: Seq<u8>, info_hash: Seq<u8>)
    requires
        peer_id.len() == 20,
        info_hash.len() == 20,
    ensures
        handshake_bytes(peer_id, info_hash).len() == 68,
        handshake_bytes(peer_id, info_hash)[0] == 19,
        handshake_bytes(peer_id, info_hash).subrange(1, 20) == pstr(),
        handshake_bytes(peer_id, info_hash).subrange(20, 28) == zeros(8),
        handshake_bytes(peer_id, info_hash).subrange(28, 48) == info_hash,
        handshake_bytes(peer_id, info_hash).subrange(48, 68) == peer_id,
        parse_handshake(handshake_bytes(peer_id, info_hash)) == Some(
            MessageModel::Handshake { peer_id, info_hash },
        ),
{
    let h = handshake_bytes(peer_id, info_hash);
    assert(h.subrange(1, 20) =~= pstr());
    assert(h.subrange(20, 28) =~= zeros(8));
    assert(h.subrange(28, 48) =~= info_hash);
    assert(h.subrange(48, 68) =~= peer_id);
}

/// A number written between two runs of bytes reads back from where it starts.
proof fn lemma_be_at_within(before: Seq<u8>, v: u32, after: Seq<u8>)
    ensures
        be_at(before + be_bytes(v) + after, before.len() as int) == v,
{
    let s = before + be_bytes(v) + after;
    let k = before.len() as int;
    lemma_be_round_trip(v);
    assert(s[k] == be_bytes(v)[0]);
    assert(s[k + 1] == be_bytes(v)[1]);
    assert(s[k + 2] == be_bytes(v)[2]);
    assert(s[k + 3] == be_bytes(v)[3]);
}

/// A frame is five bytes longer than its payload; its prefix counts the id
/// and the payload, which are what follows the prefix.
proof fn lemma_frame(id: u8, payload: Seq<u8>)
    requires
        1 + payload.len() <= u32::MAX,
    ensures
        frame(id, payload).len() == 5 + payload.len(),
        be_at(frame(id, payload), 0) == 1 + payload.len(),
        frame(id, payload).subrange(4, 5 + payload.len() as int) == seq![id] + payload,
{
    let v = (1 + payload.len()) as u32;
    lemma_be_at_within(Seq::empty(), v, seq![id] + payload);
    assert(Seq::<u8>::empty() + be_bytes(v) + (seq![id] + payload) =~= frame(id, payload));
    assert(frame(id, payload).subrange(4, 5 + payload.len() as int) =~= seq![id] + payload);
}

/// The three numbers of a request read back from behind the message id.
proof fn lemma_block_info_body(id: u8, info: BlockInfo)
    ensures
        (seq![id] + block_info_bytes(info)).len() == 13,
        be_at(seq![id] + block_info_bytes(info), 1) == info.index,
        be_at(seq![id] + block_info_bytes(info), 5) == info.begin,
        be_at(seq![id] + block_info_bytes(info), 9) == info.length,
{
    let body = seq![id] + block_info_bytes(info);
    lemma_be_at_within(seq![id], info.index, be_bytes(info.begin) + be_bytes(info.length));
    assert(seq![id] + be_bytes(info.index) + (be_bytes(info.begin) + be_bytes(info.length))
        =~= body);
    lemma_be_at_within(seq![id] + be_bytes(info.index), info.begin, be_bytes(info.length));
    assert(seq![id] + be_bytes(info.index) + be_bytes(info.begin) + be_bytes(info.length)
        =~= body);
    lemma_be_at_within(
        seq![id] + be_bytes(info.index) + be_bytes(info.begin),
        info.length,
        Seq::empty(),
    );
    assert(seq![id] + be_bytes(info.index) + be_bytes(info.begin) + be_bytes(info.length)
        + Seq::<u8>::empty() =~= body);
}

/// The id and payload of every message but the handshake and the keep-alive.
pub open spec fn body_of(m: MessageModel) -> Seq<u8> {
    match m {
        MessageModel::Choke => seq![0u8],
        MessageModel::Unchoke => seq![1u8],
        MessageModel::Interested => seq![2u8],
        MessageModel::NotInterested => seq![3u8],
        MessageModel::Have { piece_index } => seq![4u8] + be_bytes(piece_index),
        MessageModel::Bitfield(bits) => seq![5u8] + bits,
        MessageModel::Request(info) => seq![6u8] + block_info_bytes(info),
        MessageModel::Piece { index, begin, data } => seq![7u8] + (be_bytes(index) + be_bytes(begin)
            + data),
        MessageModel::Cancel(info) => seq![8u8] + block_info_bytes(info),
        _ => Seq::empty(),
    }
}

/// What follows the prefix of an encoded message parses back to the message.
proof fn lemma_body_parses(m: MessageModel)
    requires
        !(m is Handshake),
        fits(m),
    ensures
        parse_frame(body_of(m)) == Ok::<MessageModel, MessageError>(m),
{
    let body = body_of(m);
    match m {
        MessageModel::Have { piece_index } => {
            lemma_be_at_within(seq![4u8], piece_index, Seq::empty());
            assert(seq![4u8] + be_bytes(piece_index) + Seq::<u8>::empty() =~= body);
        },
        MessageModel::Bitfield(bits) => {
            assert(body.subrange(1, body.len() as int) =~= bits);
        },
        MessageModel::Request(info) => {
            lemma_block_info_body(6, info);
        },
        MessageModel::Cancel(info) => {
            lemma_block_info_body(8, info);
        },
        MessageModel::Piece { index, begin, data } => {
            lemma_be_at_within(seq![7u8], index, be_bytes(begin) + data);
            assert(seq![7u8] + be_bytes(index) + (be_bytes(begin) + data) =~= body);
            lemma_be_at_within(seq![7u8] + be_bytes(index), begin, data);
            assert(seq![7u8] + be_bytes(index) + be_bytes(begin) + data =~= body);
            assert(body.subrange(9, body.len() as int) =~= data);
        },
        _ => {},
    }
}

/// Every message but the handshake survives the wire: its encoding is four
/// bytes longer than its prefix says, and what follows the prefix parses back
/// to the same message.
pub proof fn lemma_round_trip(m: MessageModel)
    requires
        !(m is Handshake),
        fits(m),
    ensures
        encode(m).len() >= 4,
        be_at(encode(m), 0) + 4 == encode(m).len(),
        parse_frame(encode(m).subrange(4, encode(m).len() as int)) == Ok::<
            MessageModel,
            MessageError,
        >(m),
{
    let e = encode(m);
    lemma_body_parses(m);
    if m is KeepAlive {
        lemma_be_round_trip(0);
        assert(e.subrange(4, 4) =~= Seq::<u8>::empty());
    } else {
        let body = body_of(m);
        let payload = body.subrange(1, body.len() as int);
        assert(body =~= seq![body[0]] + payload);
        assert(e == frame(body[0], payload)) by {
            match m {
                MessageModel::Choke => assert(payload =~= Seq::<u8>::empty()),
                MessageModel::Unchoke => assert(payload =~= Seq::<u8>::empty()),
                MessageModel::Interested => assert(payload =~= Seq::<u8>::empty()),
                MessageModel::NotInterested => assert(payload =~= Seq::<u8>::empty()),
                MessageModel::Have { piece_index } => assert(payload =~= be_bytes(piece_index)),
                MessageModel::Bitfield(bits) => assert(payload =~= bits),
                MessageModel::Request(info) => assert(payload =~= block_info_bytes(info)),
                MessageModel::Cancel(info) => assert(payload =~= block_info_bytes(info)),
                MessageModel::Piece { index, begin, data } => assert(payload =~= be_bytes(index)
                    + be_bytes(begin) + data),
                _ => {},
            }
        }
        lemma_frame(body[0], payload);
    }
}

/// A whole frame is at the front of `bytes`: the prefix and as many bytes as it announces.
pub open spec fn frame_ready(bytes: Seq<u8>) -> bool {
    bytes.len() >= 4 && bytes.len() >= 4 + be_at(bytes, 0)
}

/// What follows the prefix of the frame at the front of `bytes`.
pub open spec fn frame_body(bytes: Seq<u8>) -> Seq<u8> {
    bytes.subrange(4, 4 + be_at(bytes, 0))
}

/// What follows the frame at the front of `bytes`.
pub open spec fn frame_rest(bytes: Seq<u8>) -> Seq<u8> {
    bytes.subrange(4 + be_at(bytes, 0), bytes.len() as int)
}

/// The opening message of a connection.
#[derive(Debug, Clone, Copy)]
pub struct Handshake {
    pub peer_id: PeerId,
    pub info_hash: InfoHash,
}

/// The protocol name as an array.
fn protocol_name() -> (name: [u8; 19])
    ensures
        name@ == pstr(),
{
    let name: [u8; 19] = [
        66u8,
        105u8,
        116u8,
        84u8,
        111u8,
        114u8,
        114u8,
        101u8,
        110u8,
        116u8,
        32u8,
        112u8,
        114u8,
        111u8,
        116u8,
        111u8,
        99u8,
        111u8,
        108u8,
    ];
    assert(name@ =~= pstr());
    name
}

/// Reads four bytes of `s` from `at` on as a number, most significant byte first.
fn read_u32(s: &[u8], at: usize) -> (v: u32)
    requires
        at + 4 <= s@.len(),
    ensures
        v == be_at(s@, at as int),
{
    let b0: u32 = s[at] as u32;
    let b1: u32 = s[at + 1] as u32;
    let b2: u32 = s[at + 2] as u32;
    let b3: u32 = s[at + 3] as u32;
    b0 * 0x100_0000 + b1 * 0x1_0000 + b2 * 0x100 + b3
}

/// Copies twenty bytes of `s` from `at` on.
fn read_hash(s: &[u8], at: usize) -> (out: [u8; 20])
    requires
        at + 20 <= s@.len(),
    ensures
        out@ == s@.subrange(at as int, at + 20),
{
    let mut out: [u8; 20] = [0u8;20];
    let n: usize = s.len();
    let mut i: usize = 0;
    while i < 20
        invariant
            i <= 20,
            n == s@.len(),
            at + 20 <= n,
            forall|j: int| 0 <= j < i ==> out@[j] == s@[at + j],
        decreases 20 - i,
    {
        out[i] = s[at + i];
        i += 1;
    }
    assert(out@ =~= s@.subrange(at as int, at + 20));
    out
}

/// Whether the 68 bytes of `s` start as a handshake must.
fn header_matches(s: &[u8]) -> (ok: bool)
    requires
        s@.len() == HANDSHAKE_LEN,
    ensures
        ok == (s@[0] == PSTRLEN && s@.subrange(1, 20) == pstr()),
{
    if s[0] != PSTRLEN {
        return false;
    }
    let name: [u8; 19] = protocol_name();
    let mut i: usize = 0;
    while i < 19
        invariant
            i <= 19,
            s@.len() == HANDSHAKE_LEN,
            name@ == pstr(),
            forall|j: int| 0 <= j < i ==> s@[1 + j] == name@[j],
        decreases 19 - i,
    {
        if s[1 + i] != name[i] {
            assert(s@.subrange(1, 20)[i as int] != pstr()[i as int]);
            return false;
        }
        i += 1;
    }
    assert(s@.subrange(1, 20) =~= pstr());
    true
}

/// Appends the 68 bytes of a handshake to `buf`.
fn put_handshake(buf: &mut BytesMut, peer_id: &PeerId, info_hash: &InfoHash)
    ensures
        buf_seq(*final(buf)) == buf_seq(*old(buf)) + handshake_bytes(peer_id.0@, info_hash.0@),
{
    let name: [u8; 19] = protocol_name();
    let reserved: [u8; 8] = [0u8;8];
    assert(reserved@ =~= zeros(8));
    buf_put_u8(buf, PSTRLEN);
    buf_put_slice(buf, name.as_slice());
    buf_put_slice(buf, reserved.as_slice());
    buf_put_slice(buf, info_hash.0.as_slice());
    buf_put_slice(buf, peer_id.0.as_slice());
    assert(buf_seq(*buf) =~= buf_seq(*old(buf)) + handshake_bytes(peer_id.0@, info_hash.0@));
}

/// Appends the three numbers of a request or a cancel behind their frame header.
fn put_block_info(buf: &mut BytesMut, id: u8, info: &BlockInfo)
    ensures
        buf_seq(*final(buf)) == buf_seq(*old(buf)) + frame(id, block_info_bytes(*info)),
{
    buf_put_u32(buf, 13);
    buf_put_u8(buf, id);
    buf_put_u32(buf, info.index);
    buf_put_u32(buf, info.begin);
    buf_put_u32(buf, info.length);
    assert(buf_seq(*buf) =~= buf_seq(*old(buf)) + frame(id, block_info_bytes(*info)));
}

/// Appends a message that is nothing but its id.
fn put_bare(buf: &mut BytesMut, id: u8)
    ensures
        buf_seq(*final(buf)) == buf_seq(*old(buf)) + frame(id, Seq::empty()),
{
    buf_put_u32(buf, 1);
    buf_put_u8(buf, id);
    assert(buf_seq(*buf) =~= buf_seq(*old(buf)) + frame(id, Seq::empty()));
}

impl Handshake {
    /// The handshake of `peer_id` for the torrent `info_hash`.
    pub fn new(peer_id: PeerId, info_hash: InfoHash) -> (h: Self)
        ensures
            h.peer_id == peer_id,
            h.info_hash == info_hash,
    {
        Handshake { peer_id, info_hash }
    }

    /// The 68 bytes of this handshake.
    pub fn to_bytes(&self) -> (out: Vec<u8>)
        ensures
            out@ == handshake_bytes(self.peer_id.0@, self.info_hash.0@),
    {
        let name: [u8; 19] = protocol_name();
        let reserved: [u8; 8] = [0u8;8];
        assert(reserved@ =~= zeros(8));
        let mut out: Vec<u8> = Vec::new();
        out.push(PSTRLEN);
        out.extend_from_slice(name.as_slice());
        out.extend_from_slice(reserved.as_slice());
        out.extend_from_slice(self.info_hash.0.as_slice());
        out.extend_from_slice(self.peer_id.0.as_slice());
        assert(out@ =~= handshake_bytes(self.peer_id.0@, self.info_hash.0@));
        out
    }

    /// Reads a handshake: exactly 68 bytes that start with the length of the
    /// protocol name and the name itself. Anything else is no handshake.
    pub fn from_bytes(bytes: &[u8]) -> (r: Option<Handshake>)
        ensures
            match parse_handshake(bytes@) {
                Some(m) => r is Some && m == (MessageModel::Handshake {
                    peer_id: r->0.peer_id.0@,
                    info_hash: r->0.info_hash.0@,
                }),
                None => r is None,
            },
    {
        if bytes.len() != HANDSHAKE_LEN || !header_matches(bytes) {
            return None;
        }
        let info_hash: [u8; 20] = read_hash(bytes, 28);
        let peer_id: [u8; 20] = read_hash(bytes, 48);
        Some(Handshake { peer_id: PeerId(peer_id), info_hash: InfoHash(info_hash) })
    }
}

impl Message {
    /// Whether the message can be put on the wire: its length behind the
    /// prefix must fit the prefix's 32 bits.
    pub fn fits_wire(&self) -> (ok: bool)
        ensures
            ok == fits(self@),
    {
        match self {
            Message::Bitfield(bitfield) => bitfield.len() < 0xFFFF_FFFF,
            Message::Piece(block) => {
                let length: usize = bytes_as_slice(&block.data).len();
                length <= 0xFFFF_FFFF - 9
            },
            _ => true,
        }
    }

    /// Appends the wire form of the message to `buf`.
    pub fn to_bytes(&self, buf: &mut BytesMut)
        requires
            fits(self@),
        ensures
            buf_seq(*final(buf)) == buf_seq(*old(buf)) + encode(self@),
    {
        match self {
            Message::Handshake { peer_id, info_hash } => {
                put_handshake(buf, peer_id, info_hash);
            },
            Message::KeepAlive => {
                buf_put_u32(buf, 0);
            },
            Message::Choke => {
                put_bare(buf, 0);
            },
            Message::Unchoke => {
                put_bare(buf, 1);
            },
            Message::Interested => {
                put_bare(buf, 2);
            },
            Message::NotInterested => {
                put_bare(buf, 3);
            },
            Message::Have { piece_index } => {
                buf_put_u32(buf, 5);
                buf_put_u8(buf, 4);
                buf_put_u32(buf, *piece_index);
                assert(buf_seq(*buf) =~= buf_seq(*old(buf)) + encode(self@));
            },
            Message::Bitfield(bitfield) => {
                let bitfield_len: usize = bitfield.len();
                buf_put_u32(buf, 1 + bitfield_len as u32);
                buf_put_u8(buf, 5);
                buf_put_slice(buf, bitfield.as_slice());
                assert(buf_seq(*buf) =~= buf_seq(*old(buf)) + encode(self@));
            },
            Message::Request(block_info) => {
                put_block_info(buf, 6, block_info);
            },
            Message::Piece(block) => {
                let data = bytes_as_slice(&block.data);
                buf_put_u32(buf, 9 + data.len() as u32);
                buf_put_u8(buf, 7);
                buf_put_u32(buf, block.index);
                buf_put_u32(buf, block.begin);
                buf_put_slice(buf, data);
                assert(buf_seq(*buf) =~= buf_seq(*old(buf)) + encode(self@));
            },
            Message::Cancel(block_info) => {
                put_block_info(buf, 8, block_info);
            },
        }
    }

    /// Takes one length-prefixed message off the front of `src`.
    ///
    /// While fewer than four bytes, or fewer bytes than the prefix announces,
    /// are buffered, the answer is `Ok(None)` and `src` is left alone. A whole
    /// frame that is a message is removed from `src`, prefix included, and
    /// returned. A whole frame that is no message, because its id is unknown
    /// or its length does not suit its id, is an error, and `src` is left alone.
    pub fn decode(src: &mut BytesMut) -> (r: Result<Option<Message>, MessageError>)
        ensures
            !frame_ready(buf_seq(*old(src))) ==> r is Ok && r->Ok_0 is None && buf_seq(*final(src))
                == buf_seq(*old(src)),
            frame_ready(buf_seq(*old(src))) ==> match parse_frame(frame_body(buf_seq(*old(src)))) {
                Ok(m) => {
                    &&& r is Ok
                    &&& r->Ok_0 is Some
                    &&& r->Ok_0->0@ == m
                    &&& buf_seq(*final(src)) == frame_rest(buf_seq(*old(src)))
                },
                Err(e) => r is Err && r->Err_0 == e && buf_seq(*final(src)) == buf_seq(*old(src)),
            },
    {
        let s = buf_as_slice(src);
        if s.len() < 4 {
            return Ok(None);
        }
        let length: u32 = read_u32(s, 0);
        let n: usize = length as usize;
        if s.len() - 4 < n {
            return Ok(None);
        }
        let total: usize = 4 + n;
        let ghost body = frame_body(s@);
        if n == 0 {
            let _ = buf_split_to(src, total);
            return Ok(Some(Message::KeepAlive));
        }
        let id: u8 = s[4];
        assert(body[0] == id);
        let bad = MessageError::InvalidLength { id, length };
        if id <= 3 {
            if n != 1 {
                return Err(bad);
            }
            let _ = buf_split_to(src, total);
            if id == 0 {
                Ok(Some(Message::Choke))
            } else if id == 1 {
                Ok(Some(Message::Unchoke))
            } else if id == 2 {
                Ok(Some(Message::Interested))
            } else {
                Ok(Some(Message::NotInterested))
            }
        } else if id == 4 {
            if n != 5 {
                return Err(bad);
            }
            let piece_index: u32 = read_u32(s, 5);
            let _ = buf_split_to(src, total);
            Ok(Some(Message::Have { piece_index }))
        } else if id == 5 {
            let mut bits: Vec<u8> = Vec::new();
            bits.extend_from_slice(slice_subrange(s, 5, total));
            assert(bits@ =~= body.subrange(1, n as int));
            let _ = buf_split_to(src, total);
            Ok(Some(Message::Bitfield(bits)))
        } else if id == 6 || id == 8 {
            if n != 13 {
                return Err(bad);
            }
            let info = BlockInfo {
                index: read_u32(s, 5),
                begin: read_u32(s, 9),
                length: read_u32(s, 13),
            };
            let _ = buf_split_to(src, total);
            if id == 6 {
                Ok(Some(Message::Request(info)))
            } else {
                Ok(Some(Message::Cancel(info)))
            }
        } else if id == 7 {
            if n < 9 {
                return Err(bad);
            }
            let index: u32 = read_u32(s, 5);
            let begin: u32 = read_u32(s, 9);
            let mut whole: BytesMut = buf_split_to(src, total);
            let _ = buf_split_to(&mut whole, 13);
            let data: Bytes = buf_freeze(whole);
            assert(bytes_seq(data) =~= body.subrange(9, n as int));
            Ok(Some(Message::Piece(Block { index, begin, data })))
        } else {
            Err(MessageError::UnknownMessageId(id))
        }
    }

    /// Takes one message off the front of `src`, the handshake included.
    ///
    /// A buffer of exactly 68 bytes that starts as a handshake must is read as
    /// a handshake and emptied. Any other buffer is read as a length-prefixed
    /// message; the answer is `None`, and `src` is left alone, while the frame
    /// is incomplete and when it is no message.
    pub fn from_bytes(src: &mut BytesMut) -> (r: Option<Message>)
        ensures
            match parse_handshake(buf_seq(*old(src))) {
                Some(m) => r is Some && r->0@ == m && buf_seq(*final(src)) == Seq::<u8>::empty(),
                None => if frame_ready(buf_seq(*old(src))) && parse_frame(
                    frame_body(buf_seq(*old(src))),
                ) is Ok {
                    &&& r is Some
                    &&& r->0@ == parse_frame(frame_body(buf_seq(*old(src))))->Ok_0
                    &&& buf_seq(*final(src)) == frame_rest(buf_seq(*old(src)))
                } else {
                    r is None && buf_seq(*final(src)) == buf_seq(*old(src))
                },
            },
    {
        let s = buf_as_slice(src);
        match Handshake::from_bytes(s) {
            Some(h) => {
                let _ = buf_split_to(src, HANDSHAKE_LEN);
                assert(buf_seq(*src) =~= Seq::<u8>::empty());
                Some(Message::Handshake { peer_id: h.peer_id, info_hash: h.info_hash })
            },
            None => {
                match Message::decode(src) {
                    Ok(Some(m)) => Some(m),
                    Ok(None) => None,
                    Err(_) => None,
                }
            },
        }
    }
}

} // verus!

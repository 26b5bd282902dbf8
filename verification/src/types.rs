//! Identifiers that travel through the whole engine: hashes, the local peer
//! identity and the address of a remote peer.

use vstd::prelude::*;
use vstd::string::StringSliceAdditionalSpecFns;

verus! {

/// Identity of the local client: twenty bytes, the first three a client tag.
#[derive(Clone, Copy, Debug, PartialEq, Eq, Hash)]
pub struct PeerId(pub [u8; 20]);

/// Expected SHA-1 of one piece.
#[derive(Clone, Copy, Debug, PartialEq, Eq, Hash)]
pub struct PieceHash(pub [u8; 20]);

/// SHA-1 that identifies a torrent.
#[derive(Clone, Copy, Debug, PartialEq, Eq, Hash)]
pub struct InfoHash(pub [u8; 20]);

/// Why bytes are no piece hash.
#[derive(Debug, PartialEq, Eq)]
pub enum PieceHashError {
    InvalidLenght,
}

/// What is wrong with a text that should be hexadecimal digits.
#[derive(Debug, Clone, Copy, PartialEq, Eq)]
pub enum HexFault {
    /// The character `c` at position `index` is no hexadecimal digit.
    InvalidHexCharacter { c: char, index: usize },
    /// The number of digits is odd.
    OddLength,
    /// The number of digits is not twice the number of bytes asked for.
    InvalidStringLength,
}

/// Why bytes or digits are no info hash.
#[derive(Debug, PartialEq, Eq)]
pub enum InfoHashError {
    InvalidHashLength(usize),
    InvalidHexLength(usize),
    InvalidHexEncoding(HexFault),
}

/// The lower-case hexadecimal digit of `d`.
pub open spec fn hex_lower(d: int) -> char {
    if d < 10 {
        (48 + d) as u8 as char
    } else {
        (87 + d) as u8 as char
    }
}

/// Two lower-case hexadecimal digits for every byte of `bytes`.
pub open spec fn hex_text(bytes: Seq<u8>) -> Seq<char> {
    Seq::new(
        2 * bytes.len(),
        |i: int|
            if i % 2 == 0 {
                hex_lower(bytes[i / 2] as int / 16)
            } else {
                hex_lower(bytes[i / 2] as int % 16)
            },
    )
}

/// The value of the hexadecimal digit `c`, of either case.
pub open spec fn hex_value(c: u8) -> Option<u8> {
    if 48 <= c <= 57 {
        Some((c - 48) as u8)
    } else if 65 <= c <= 70 {
        Some((c - 55) as u8)
    } else if 97 <= c <= 102 {
        Some((c - 87) as u8)
    } else {
        None
    }
}

/// The first position from `from` on at which `digits` holds no hexadecimal digit.
pub open spec fn first_bad_digit(digits: Seq<u8>, from: int) -> Option<int>
    decreases digits.len() - from,
{
    if from < 0 || from >= digits.len() {
        None
    } else if hex_value(digits[from]) is None {
        Some(from)
    } else {
        first_bad_digit(digits, from + 1)
    }
}

/// What is wrong with `digits` as the hexadecimal form of twenty bytes, if
/// anything: an odd length, a length other than forty, or the first
/// character that is no digit.
pub open spec fn hex_fault(digits: Seq<u8>) -> Option<HexFault> {
    if digits.len() % 2 != 0 {
        Some(HexFault::OddLength)
    } else if digits.len() != 40 {
        Some(HexFault::InvalidStringLength)
    } else {
        match first_bad_digit(digits, 0) {
            Some(at) => Some(
                HexFault::InvalidHexCharacter { c: digits[at] as char, index: at as usize },
            ),
            None => None,
        }
    }
}

/// `hex::encode`: two lower-case hexadecimal digits for every byte.
#[verifier::external_body]
fn hex_encode(bytes: &[u8]) -> (text: String)
    ensures
        text@ == hex_text(bytes@),
{
    hex::encode(bytes)
}

/// `hex::decode_to_slice` into twenty bytes. The crate refuses an odd number
/// of digits, then a number other than forty, then the first character that
/// is no digit of either case; otherwise every two digits make one byte, the
/// first digit the high half.
#[verifier::external_body]
fn hex_decode(digits: &str) -> (r: Result<[u8; 20], HexFault>)
    ensures
        match hex_fault(digits.spec_bytes()) {
            Some(fault) => r == Err::<[u8; 20], HexFault>(fault),
            None => r is Ok && forall|i: int|
                0 <= i < 20 ==> #[trigger] r->Ok_0@[i] == hex_value(
                    digits.spec_bytes()[2 * i],
                )->0 * 16 + hex_value(digits.spec_bytes()[2 * i + 1])->0,
        },
{
    let mut bytes = [0u8; 20];
    match hex::decode_to_slice(digits, &mut bytes) {
        Ok(()) => Ok(bytes),
        Err(hex::FromHexError::InvalidHexCharacter { c, index }) => Err(
            HexFault::InvalidHexCharacter { c, index },
        ),
        Err(hex::FromHexError::OddLength) => Err(HexFault::OddLength),
        Err(hex::FromHexError::InvalidStringLength) => Err(HexFault::InvalidStringLength),
    }
}

/// IPv4 address and TCP port of a remote peer.
#[derive(Clone, Copy, Debug, PartialEq, Eq, Hash)]
pub struct PeerAddr {
    pub ip: [u8; 4],
    pub port: u16,
}

/// The number that stands for the address `ip:port`: the four address bytes, then the port.
pub open spec fn addr_key(ip: Seq<u8>, port: u16) -> u64
    recommends
        ip.len() == 4,
{
    ((((ip[0] as int * 256 + ip[1] as int) * 256 + ip[2] as int) * 256 + ip[3] as int) * 65536
        + port as int) as u64
}

/// Copies twenty bytes out of a slice.
fn array_of(value: &[u8]) -> (bytes: [u8; 20])
    requires
        value@.len() == 20,
    ensures
        bytes@ == value@,
{
    let mut bytes: [u8; 20] = [0u8;20];
    let mut i: usize = 0;
    while i < 20
        invariant
            i <= 20,
            value@.len() == 20,
            forall|j: int| 0 <= j < i ==> bytes@[j] == value@[j],
        decreases 20 - i,
    {
        bytes[i] = value[i];
        i += 1;
    }
    assert(bytes@ =~= value@);
    bytes
}

/// Whether two hashes hold the same bytes.
pub fn same_hash(a: &[u8; 20], b: &[u8; 20]) -> (same: bool)
    ensures
        same == (a@ == b@),
{
    let mut i: usize = 0;
    while i < 20
        invariant
            i <= 20,
            forall|j: int| 0 <= j < i ==> a@[j] == b@[j],
        decreases 20 - i,
    {
        if a[i] != b[i] {
            return false;
        }
        i += 1;
    }
    assert(a@ =~= b@);
    true
}

/// `Rng::fill` of the `rand` crate on seventeen bytes, with the thread's
/// generator. What the bytes are is left to chance.
#[verifier::external_body]
fn random_tail() -> (tail: [u8; 17])
{
    let mut tail = [0u8; 17];
    rand::Rng::fill(&mut rand::rng(), &mut tail[..]);
    tail
}

/// The peer id that starts with the client's tag, `-RS`, and goes on with `tail`.
pub fn peer_id_with(tail: [u8; 17]) -> (id: PeerId)
    ensures
        id.0@ == seq![45u8, 82u8, 83u8] + tail@,
{
    let mut bytes: [u8; 20] = [0u8;20];
    bytes[0] = 45;
    bytes[1] = 82;
    bytes[2] = 83;
    let mut i: usize = 0;
    while i < 17
        invariant
            i <= 17,
            bytes@[0] == 45 && bytes@[1] == 82 && bytes@[2] == 83,
            forall|j: int| 0 <= j < i ==> bytes@[3 + j] == tail@[j],
        decreases 17 - i,
    {
        bytes[3 + i] = tail[i];
        i += 1;
    }
    assert(bytes@ =~= seq![45u8, 82u8, 83u8] + tail@);
    PeerId(bytes)
}

/// A fresh identity for this client: the tag `-RS` and seventeen random bytes.
pub fn generate_peer_id() -> (id: PeerId)
    ensures
        id.0@.subrange(0, 3) == seq![45u8, 82u8, 83u8],
{
    let id = peer_id_with(random_tail());
    assert(id.0@.subrange(0, 3) =~= seq![45u8, 82u8, 83u8]);
    id
}

impl PieceHash {
    /// A piece hash from exactly twenty bytes; any other length is refused.
    pub fn try_from(value: &[u8]) -> (r: Result<PieceHash, PieceHashError>)
        ensures
            value@.len() == 20 ==> r is Ok && r->Ok_0.0@ == value@,
            value@.len() != 20 ==> r == Err::<PieceHash, PieceHashError>(
                PieceHashError::InvalidLenght,
            ),
    {
        if value.len() == 20 {
            Ok(PieceHash(array_of(value)))
        } else {
            Err(PieceHashError::InvalidLenght)
        }
    }
}

impl InfoHash {
    /// The info hash that is `bytes`.
    pub fn from(bytes: [u8; 20]) -> (h: InfoHash)
        ensures
            h.0 == bytes,
    {
        InfoHash(bytes)
    }

    /// The twenty bytes of the hash.
    pub fn as_bytes(&self) -> (bytes: [u8; 20])
        ensures
            bytes == self.0,
    {
        self.0
    }

    /// An info hash from exactly twenty bytes; any other length is refused.
    pub fn try_from(value: &[u8]) -> (r: Result<InfoHash, InfoHashError>)
        ensures
            value@.len() == 20 ==> r is Ok && r->Ok_0.0@ == value@,
            value@.len() != 20 ==> r == Err::<InfoHash, InfoHashError>(
                InfoHashError::InvalidHashLength(value@.len() as usize),
            ),
    {
        if value.len() == 20 {
            Ok(InfoHash(array_of(value)))
        } else {
            Err(InfoHashError::InvalidHashLength(value.len()))
        }
    }

    /// The hash as forty lower-case hexadecimal digits.
    pub fn to_hex(&self) -> (text: String)
        ensures
            text@ == hex_text(self.0@),
    {
        hex_encode(self.0.as_slice())
    }

    /// The hash that forty hexadecimal digits of either case spell. A text
    /// of another length in bytes is refused with that length, and a text of
    /// forty bytes that are not all digits with the first that is none.
    pub fn from_hex(hex_str: &str) -> (r: Result<InfoHash, InfoHashError>)
        ensures
            hex_str.spec_bytes().len() != 40 ==> r == Err::<InfoHash, InfoHashError>(
                InfoHashError::InvalidHexLength(hex_str.spec_bytes().len() as usize),
            ),
            hex_str.spec_bytes().len() == 40 ==> match hex_fault(hex_str.spec_bytes()) {
                Some(fault) => r == Err::<InfoHash, InfoHashError>(
                    InfoHashError::InvalidHexEncoding(fault),
                ),
                None => r is Ok && forall|i: int|
                    0 <= i < 20 ==> #[trigger] r->Ok_0.0@[i] == hex_value(
                        hex_str.spec_bytes()[2 * i],
                    )->0 * 16 + hex_value(hex_str.spec_bytes()[2 * i + 1])->0,
            },
    {
        let length: usize = hex_str.as_bytes().len();
        if length != 40 {
            return Err(InfoHashError::InvalidHexLength(length));
        }
        match hex_decode(hex_str) {
            Ok(bytes) => Ok(InfoHash(bytes)),
            Err(fault) => Err(InfoHashError::InvalidHexEncoding(fault)),
        }
    }
}

impl PeerAddr {
    /// The address `ip:port`.
    pub fn new(ip: [u8; 4], port: u16) -> (addr: PeerAddr)
        ensures
            addr.ip == ip,
            addr.port == port,
    {
        PeerAddr { ip, port }
    }

    /// The number under which this peer is filed.
    pub open spec fn spec_key(&self) -> u64 {
        addr_key(self.ip@, self.port)
    }

    /// The number under which this peer is filed.
    #[verifier::when_used_as_spec(spec_key)]
    pub fn key(&self) -> (k: u64)
        ensures
            k == self.spec_key(),
    {
        let a: u64 = self.ip[0] as u64;
        let b: u64 = self.ip[1] as u64;
        let c: u64 = self.ip[2] as u64;
        let d: u64 = self.ip[3] as u64;
        (((a * 256 + b) * 256 + c) * 256 + d) * 65536 + self.port as u64
    }

    /// Two addresses are filed under the same number only if they are the same address.
    pub proof fn lemma_key_injective(a: PeerAddr, b: PeerAddr)
        requires
            a.key() == b.key(),
        ensures
            a.ip@ == b.ip@,
            a.port == b.port,
    {
        lemma_split(a.ip@[0], a.ip@[1], a.ip@[2], a.ip@[3], a.port);
        lemma_split(b.ip@[0], b.ip@[1], b.ip@[2], b.ip@[3], b.port);
        assert(a.ip@ =~= b.ip@);
    }
}

/// The five parts of an address can be read back from its key.
proof fn lemma_split(b0: u8, b1: u8, b2: u8, b3: u8, port: u16)
    ensures
        addr_key(seq![b0, b1, b2, b3], port) as int == (((b0 as int * 256 + b1 as int) * 256
            + b2 as int) * 256 + b3 as int) * 65536 + port as int,
        addr_key(seq![b0, b1, b2, b3], port) % 65536 == port as int,
        addr_key(seq![b0, b1, b2, b3], port) / 65536 % 256 == b3 as int,
        addr_key(seq![b0, b1, b2, b3], port) / 65536 / 256 % 256 == b2 as int,
        addr_key(seq![b0, b1, b2, b3], port) / 65536 / 256 / 256 % 256 == b1 as int,
        addr_key(seq![b0, b1, b2, b3], port) / 65536 / 256 / 256 / 256 == b0 as int,
{
    let x1: int = b0 as int * 256 + b1 as int;
    let x2: int = x1 * 256 + b2 as int;
    let x3: int = x2 * 256 + b3 as int;
    let k: int = x3 * 65536 + port as int;
    assert(0 <= x1 < 0x1_0000);
    assert(0 <= x2 < 0x100_0000);
    assert(0 <= x3 < 0x1_0000_0000);
    assert(0 <= k < 0x1_0000_0000_0000);
    assert(k % 65536 == port as int && k / 65536 == x3);
    assert(x3 % 256 == b3 as int && x3 / 256 == x2);
    assert(x2 % 256 == b2 as int && x2 / 256 == x1);
    assert(x1 % 256 == b1 as int && x1 / 256 == b0 as int);
}

} // verus!

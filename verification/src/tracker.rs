//! Talking to trackers: which tracker to ask next, what to ask, what the
//! answer means, and when to ask again.
//!
//! The requests themselves are made by whoever runs the client; this module
//! decides and computes.

use crate::bencode::{
    decimal_bytes, decoding, lemma_values_of, put_decimal, value_of, values_of, Bencode,
    BencodeError, Value,
};
use crate::metainfo::TorrentInfo;
use crate::types::{InfoHash, PeerId};
use rand::seq::SliceRandom;
use std::sync::Arc;
use vstd::prelude::*;
use vstd::string::StringSliceAdditionalSpecFns;

verus! {

/// The port announced to trackers, unless another is set.
pub const DEFAULT_PORT: u16 = 6881;

/// Seconds between two announces when the tracker names no interval.
pub const DEFAULT_ANNOUNCE_INTERVAL: u32 = 120;

/// Number of peers asked of the tracker.
pub const DEFAULT_PEER_COUNT: u32 = 50;

/// A peer as a tracker names it.
#[derive(Debug, Clone)]
pub struct Peer {
    pub ip: String,
    pub port: u16,
    pub peer_id: Option<String>,
}

/// A peer as a mathematical value.
pub struct PeerModel {
    pub ip: Seq<char>,
    pub port: u16,
    pub peer_id: Option<Seq<char>>,
}

impl View for Peer {
    type V = PeerModel;

    open spec fn view(&self) -> PeerModel {
        PeerModel {
            ip: self.ip@,
            port: self.port,
            peer_id: match self.peer_id {
                Some(id) => Some(id@),
                None => None,
            },
        }
    }
}

/// The text that `String::from_utf8_lossy` makes of `bytes`: the text they
/// encode, with a replacement character for whatever is not UTF-8.
pub uninterp spec fn lossy_text(bytes: Seq<u8>) -> Seq<char>;

/// `String::from_utf8_lossy`, as an owned string.
#[verifier::external_body]
fn lossy_string(bytes: &[u8]) -> (text: String)
    ensures
        text@ == lossy_text(bytes@),
{
    String::from_utf8_lossy(bytes).to_string()
}

/// The decimal digits of `n`.
pub open spec fn decimal_text(n: nat) -> Seq<char>
    decreases n,
{
    if n < 10 {
        seq![(48 + n) as u8 as char]
    } else {
        decimal_text(n / 10).push((48 + n % 10) as u8 as char)
    }
}

/// The address `a.b.c.d` in dotted decimal.
pub open spec fn dotted_text(a: u8, b: u8, c: u8, d: u8) -> Seq<char> {
    decimal_text(a as nat) + seq!['.'] + decimal_text(b as nat) + seq!['.'] + decimal_text(
        c as nat,
    ) + seq!['.'] + decimal_text(d as nat)
}

/// `format!` of four numbers with dots between them: each number in decimal,
/// without padding.
#[verifier::external_body]
fn dotted_quad(a: u8, b: u8, c: u8, d: u8) -> (text: String)
    ensures
        text@ == dotted_text(a, b, c, d),
{
    format!("{}.{}.{}.{}", a, b, c, d)
}

/// Why an announce came to nothing.
#[derive(Debug)]
pub enum TrackerError {
    /// The tracker's answer is not bencoded.
    BencodeError(BencodeError),
    /// The tracker refused, giving this reason.
    TrackerError(String),
    /// The tracker's answer lacks this field.
    MissingField(String),
    /// The tracker's answer is malformed in this way.
    InvalidResponseFormat(String),
    /// Every tracker of every tier failed.
    NoWorkingTrackers,
}

/// An error as a mathematical value.
pub enum TrackerErrorModel {
    BencodeError(BencodeError),
    TrackerError(Seq<char>),
    MissingField(Seq<char>),
    InvalidResponseFormat(Seq<char>),
    NoWorkingTrackers,
}

impl View for TrackerError {
    type V = TrackerErrorModel;

    open spec fn view(&self) -> TrackerErrorModel {
        match self {
            TrackerError::BencodeError(e) => TrackerErrorModel::BencodeError(*e),
            TrackerError::TrackerError(reason) => TrackerErrorModel::TrackerError(reason@),
            TrackerError::MissingField(field) => TrackerErrorModel::MissingField(field@),
            TrackerError::InvalidResponseFormat(what) => TrackerErrorModel::InvalidResponseFormat(
                what@,
            ),
            TrackerError::NoWorkingTrackers => TrackerErrorModel::NoWorkingTrackers,
        }
    }
}

/// The occasion of an announce.
#[derive(Debug, Clone, Copy, PartialEq, Eq, Structural)]
pub enum AnnounceEvent {
    Started,
    Stopped,
    Completed,
    /// A regular announce, on no occasion.
    Empty,
}

impl AnnounceEvent {
    /// The value of the `event` parameter, if the occasion has one.
    pub fn as_str(&self) -> (name: Option<&'static str>)
        ensures
            match self {
                AnnounceEvent::Started => name is Some && name->0@ == "started"@,
                AnnounceEvent::Stopped => name is Some && name->0@ == "stopped"@,
                AnnounceEvent::Completed => name is Some && name->0@ == "completed"@,
                AnnounceEvent::Empty => name is None,
            },
    {
        match self {
            AnnounceEvent::Started => Some("started"),
            AnnounceEvent::Stopped => Some("stopped"),
            AnnounceEvent::Completed => Some("completed"),
            AnnounceEvent::Empty => None,
        }
    }
}

/// What a tracker answered.
#[derive(Debug, Clone)]
pub struct TrackerStatus {
    pub interval: u32,
    pub min_interval: Option<u32>,
    pub tracker_id: Option<String>,
    pub complete: u32,
    pub incomplete: u32,
    pub peers: Vec<Peer>,
}

/// A tracker's answer as a mathematical value.
pub struct StatusModel {
    pub interval: u32,
    pub min_interval: Option<u32>,
    pub tracker_id: Option<Seq<char>>,
    pub complete: u32,
    pub incomplete: u32,
    pub peers: Seq<PeerModel>,
}

/// The peers of a list as mathematical values.
pub open spec fn peer_models(peers: Seq<Peer>) -> Seq<PeerModel> {
    Seq::new(peers.len(), |i: int| peers[i]@)
}

impl View for TrackerStatus {
    type V = StatusModel;

    open spec fn view(&self) -> StatusModel {
        StatusModel {
            interval: self.interval,
            min_interval: self.min_interval,
            tracker_id: match self.tracker_id {
                Some(id) => Some(id@),
                None => None,
            },
            complete: self.complete,
            incomplete: self.incomplete,
            peers: peer_models(self.peers@),
        }
    }
}

/// The low 32 bits of `i` as a number.
pub open spec fn low_u32(i: i64) -> u32 {
    (i as int % 0x1_0000_0000) as u32
}

/// The low 16 bits of `i` as a number.
pub open spec fn low_u16(i: i64) -> u16 {
    (i as int % 0x1_0000) as u16
}

/// Seconds between announces that the answer `r` asks for: its `interval`
/// if that is a positive number, else the default.
pub open spec fn interval_of(r: Value) -> u32 {
    match r.get("interval".spec_bytes()) {
        Some(Value::Int(i)) => if i > 0 {
            low_u32(i)
        } else {
            DEFAULT_ANNOUNCE_INTERVAL
        },
        _ => DEFAULT_ANNOUNCE_INTERVAL,
    }
}

/// The `min interval` of the answer `r`, if it is a positive number.
pub open spec fn min_interval_of(r: Value) -> Option<u32> {
    match r.get("min interval".spec_bytes()) {
        Some(Value::Int(i)) => if i > 0 {
            Some(low_u32(i))
        } else {
            None
        },
        _ => None,
    }
}

/// The number under `key` in the answer `r`, zero if there is none.
pub open spec fn count_of(r: Value, key: Seq<u8>) -> u32 {
    match r.get(key) {
        Some(Value::Int(i)) => low_u32(i),
        _ => 0,
    }
}

/// The text under `key` in the answer `r`, if there is a byte string.
pub open spec fn text_of(r: Value, key: Seq<u8>) -> Option<Seq<char>> {
    match r.get(key) {
        Some(Value::Bytes(bytes)) => Some(lossy_text(bytes)),
        _ => None,
    }
}

/// The peer that six bytes stand for: four of address, two of port, most
/// significant first.
pub open spec fn compact_peer(chunk: Seq<u8>) -> PeerModel {
    PeerModel {
        ip: dotted_text(chunk[0], chunk[1], chunk[2], chunk[3]),
        port: (chunk[4] as int * 256 + chunk[5] as int) as u16,
        peer_id: None,
    }
}

/// The peers of a compact list: one for every six bytes.
pub open spec fn compact_peers(bytes: Seq<u8>) -> Seq<PeerModel> {
    Seq::new((bytes.len() / 6) as nat, |i: int| compact_peer(bytes.subrange(6 * i, 6 * i + 6)))
}

/// The peer that a dictionary stands for, or the field it lacks: `ip` must
/// be a byte string and `port` a number; `peer id` is taken if it is a byte string.
pub open spec fn dict_peer(item: Value) -> Result<PeerModel, Seq<char>> {
    match item.get("ip".spec_bytes()) {
        Some(Value::Bytes(ip)) => match item.get("port".spec_bytes()) {
            Some(Value::Int(port)) => Ok(
                PeerModel {
                    ip: lossy_text(ip),
                    port: low_u16(port),
                    peer_id: text_of(item, "peer id".spec_bytes()),
                },
            ),
            _ => Err("port"@),
        },
        _ => Err("ip"@),
    }
}

/// `found` before the peers of `rest`, unless `rest` is an error.
pub open spec fn peers_before(found: Seq<PeerModel>, rest: Result<Seq<PeerModel>, Seq<char>>) -> Result<
    Seq<PeerModel>,
    Seq<char>,
> {
    match rest {
        Ok(peers) => Ok(found + peers),
        Err(field) => Err(field),
    }
}

/// The peers of a list of dictionaries, or the field that the first faulty
/// dictionary lacks. Items that are no dictionaries are passed over.
pub open spec fn dict_peers(items: Seq<Value>) -> Result<Seq<PeerModel>, Seq<char>>
    decreases items.len(),
{
    if items.len() == 0 {
        Ok(Seq::empty())
    } else if !(items[0] is Dict) {
        dict_peers(items.drop_first())
    } else {
        match dict_peer(items[0]) {
            Ok(peer) => peers_before(seq![peer], dict_peers(items.drop_first())),
            Err(field) => Err(field),
        }
    }
}

/// The peers that the answer `r` names, in either of the two forms.
pub open spec fn peers_of(r: Value) -> Result<Seq<PeerModel>, TrackerErrorModel> {
    match r.get("peers".spec_bytes()) {
        Some(Value::Bytes(bytes)) => if bytes.len() % 6 != 0 {
            Err(TrackerErrorModel::InvalidResponseFormat("Invalid compact peers format"@))
        } else {
            Ok(compact_peers(bytes))
        },
        Some(Value::List(items)) => match dict_peers(items) {
            Ok(peers) => Ok(peers),
            Err(field) => Err(TrackerErrorModel::MissingField(field)),
        },
        _ => Err(TrackerErrorModel::MissingField("peers"@)),
    }
}

/// What the answer `r` of a tracker means: the tracker's refusal if it gives
/// a `failure reason`, else the status it reports, or what is wrong with its peers.
pub open spec fn announce_outcome(r: Value) -> Result<StatusModel, TrackerErrorModel> {
    match text_of(r, "failure reason".spec_bytes()) {
        Some(reason) => Err(TrackerErrorModel::TrackerError(reason)),
        None => match peers_of(r) {
            Err(e) => Err(e),
            Ok(peers) => Ok(
                StatusModel {
                    interval: interval_of(r),
                    min_interval: min_interval_of(r),
                    tracker_id: text_of(r, "tracker id".spec_bytes()),
                    complete: count_of(r, "complete".spec_bytes()),
                    incomplete: count_of(r, "incomplete".spec_bytes()),
                    peers,
                },
            ),
        },
    }
}

/// The low 32 bits of `i`.
fn wrap_u32(i: i64) -> (v: u32)
    ensures
        v == low_u32(i),
{
    if i >= 0 {
        (i % 0x1_0000_0000) as u32
    } else {
        let back: i64 = -(i + 1);
        (0xFFFF_FFFF - back % 0x1_0000_0000) as u32
    }
}

/// The low 16 bits of `i`.
fn wrap_u16(i: i64) -> (v: u16)
    ensures
        v == low_u16(i),
{
    if i >= 0 {
        (i % 0x1_0000) as u16
    } else {
        let back: i64 = -(i + 1);
        (0xFFFF - back % 0x1_0000) as u16
    }
}

/// The text under `key`, if there is a byte string.
fn get_text(r: &Bencode, key: &[u8]) -> (text: Option<String>)
    ensures
        match text {
            Some(t) => text_of(r@, key@) == Some(t@),
            None => text_of(r@, key@) is None,
        },
{
    match r.get(key) {
        Some(Bencode::Bytes(bytes)) => Some(lossy_string(bytes.as_slice())),
        _ => None,
    }
}

/// The number under `key`, zero if there is none.
fn get_count(r: &Bencode, key: &[u8]) -> (n: u32)
    ensures
        n == count_of(r@, key@),
{
    match r.get(key) {
        Some(Bencode::Int(i)) => wrap_u32(*i),
        _ => 0,
    }
}

/// The peers of a compact list.
fn parse_compact(bytes: &Vec<u8>) -> (peers: Vec<Peer>)
    requires
        bytes@.len() % 6 == 0,
    ensures
        peer_models(peers@) == compact_peers(bytes@),
{
    let n: usize = bytes.len();
    let count: usize = n / 6;
    let mut peers: Vec<Peer> = Vec::new();
    let mut i: usize = 0;
    while i < count
        invariant
            i <= count,
            n == bytes@.len(),
            6 * count == n,
            count == bytes@.len() / 6,
            bytes@.len() % 6 == 0,
            peers@.len() == i,
            forall|j: int|
                0 <= j < i ==> (#[trigger] peers@[j])@ == compact_peer(
                    bytes@.subrange(6 * j, 6 * j + 6),
                ),
        decreases count - i,
    {
        let at: usize = 6 * i;
        let ghost chunk = bytes@.subrange(6 * i, 6 * i + 6);
        assert(chunk[0] == bytes@[at as int] && chunk[1] == bytes@[at + 1] && chunk[2] == bytes@[at
            + 2] && chunk[3] == bytes@[at + 3] && chunk[4] == bytes@[at + 4] && chunk[5]
            == bytes@[at + 5]);
        let ip: String = dotted_quad(bytes[at], bytes[at + 1], bytes[at + 2], bytes[at + 3]);
        let port: u16 = bytes[at + 4] as u16 * 256 + bytes[at + 5] as u16;
        peers.push(Peer { ip, port, peer_id: None });
        i += 1;
    }
    assert(peer_models(peers@) =~= compact_peers(bytes@));
    peers
}

/// The peer that a dictionary stands for, or the field it lacks.
fn parse_dict_peer(item: &Bencode) -> (r: Result<Peer, String>)
    ensures
        match dict_peer(item@) {
            Ok(peer) => r is Ok && r->Ok_0@ == peer,
            Err(field) => r is Err && r->Err_0@ == field,
        },
{
    let ip: String = match item.get("ip".as_bytes()) {
        Some(Bencode::Bytes(bytes)) => lossy_string(bytes.as_slice()),
        _ => {
            return Err("ip".to_owned());
        },
    };
    let port: u16 = match item.get("port".as_bytes()) {
        Some(Bencode::Int(p)) => wrap_u16(*p),
        _ => {
            return Err("port".to_owned());
        },
    };
    let peer_id: Option<String> = get_text(item, "peer id".as_bytes());
    Ok(Peer { ip, port, peer_id })
}

/// The peers of a list of dictionaries, or the field that the first faulty one lacks.
fn parse_dict_peers(items: &Vec<Bencode>) -> (r: Result<Vec<Peer>, String>)
    ensures
        match dict_peers(values_of(items@)) {
            Ok(peers) => r is Ok && peer_models(r->Ok_0@) == peers,
            Err(field) => r is Err && r->Err_0@ == field,
        },
{
    let mut peers: Vec<Peer> = Vec::new();
    let mut i: usize = 0;
    let ghost values = values_of(items@);
    proof {
        lemma_values_of(items@);
    }
    assert(values.skip(0) =~= values);
    assert(peer_models(peers@) =~= Seq::<PeerModel>::empty());
    assert(peers_before(peer_models(peers@), dict_peers(values)) == dict_peers(values)) by {
        match dict_peers(values) {
            Ok(all) => assert(Seq::<PeerModel>::empty() + all =~= all),
            Err(_) => {},
        }
    }
    while i < items.len()
        invariant
            i <= items@.len(),
            values == values_of(items@),
            values.len() == items@.len(),
            forall|j: int| 0 <= j < items@.len() ==> #[trigger] values[j] == value_of(items@[j]),
            dict_peers(values) == peers_before(
                peer_models(peers@),
                dict_peers(values.skip(i as int)),
            ),
        decreases items@.len() - i,
    {
        let ghost rest = values.skip(i as int);
        assert(rest[0] == values[i as int]);
        assert(rest.drop_first() =~= values.skip(i + 1));
        let is_dict: bool = match &items[i] {
            Bencode::Dict(_) => true,
            _ => false,
        };
        if is_dict {
            match parse_dict_peer(&items[i]) {
                Ok(peer) => {
                    let ghost before = peer_models(peers@);
                    let ghost model = peer@;
                    peers.push(peer);
                    proof {
                        assert(peer_models(peers@) =~= before.push(model));
                        match dict_peers(values.skip(i + 1)) {
                            Ok(more) => {
                                assert(before + (seq![model] + more) =~= before.push(model) + more);
                            },
                            Err(_) => {},
                        }
                    }
                },
                Err(field) => {
                    return Err(field);
                },
            }
        }
        i += 1;
    }
    proof {
        assert(peer_models(peers@) + Seq::<PeerModel>::empty() =~= peer_models(peers@));
    }
    Ok(peers)
}

/// The peers that a tracker's answer names.
///
/// A byte string under `peers` is the compact form, six bytes for a peer: a
/// length that is no multiple of six is an `InvalidResponseFormat`. A list
/// under `peers` holds one dictionary for a peer, of which `ip` and `port`
/// are required. Anything else, or nothing at all, is a `MissingField`.
pub fn parse_peers(response: &Bencode) -> (r: Result<Vec<Peer>, TrackerError>)
    ensures
        match peers_of(response@) {
            Ok(peers) => r is Ok && peer_models(r->Ok_0@) == peers,
            Err(e) => r is Err && r->Err_0@ == e,
        },
{
    match response.get("peers".as_bytes()) {
        Some(Bencode::Bytes(bytes)) => {
            if bytes.len() % 6 != 0 {
                return Err(
                    TrackerError::InvalidResponseFormat("Invalid compact peers format".to_owned()),
                );
            }
            Ok(parse_compact(bytes))
        },
        Some(Bencode::List(peer_list)) => {
            match parse_dict_peers(peer_list) {
                Ok(peers) => Ok(peers),
                Err(field) => Err(TrackerError::MissingField(field)),
            }
        },
        _ => Err(TrackerError::MissingField("peers".to_owned())),
    }
}

/// The upper-case hexadecimal digit of `d`, as a character code.
pub open spec fn hex_upper(d: u8) -> u8 {
    if d < 10 {
        (48 + d) as u8
    } else {
        (55 + d) as u8
    }
}

/// `%` and the two upper-case hexadecimal digits of `b`.
pub open spec fn percent_byte(b: u8) -> Seq<u8> {
    seq![37u8, hex_upper(b / 16), hex_upper(b % 16)]
}

/// Every byte of `bytes` as `%` and two digits.
pub open spec fn percent_all(bytes: Seq<u8>) -> Seq<u8>
    decreases bytes.len(),
{
    if bytes.len() == 0 {
        Seq::empty()
    } else {
        percent_all(bytes.drop_last()) + percent_byte(bytes.last())
    }
}

/// Whether form encoding leaves `b` as it is: letters, digits, `*`, `-`, `.` and `_`.
pub open spec fn form_unchanged(b: u8) -> bool {
    b == 42 || b == 45 || b == 46 || (48 <= b <= 57) || (65 <= b <= 90) || b == 95 || (97 <= b
        <= 122)
}

/// The form encoding of one byte: itself where it stays unchanged, `+` for
/// a space, else `%` and two digits.
pub open spec fn form_byte(b: u8) -> Seq<u8> {
    if form_unchanged(b) {
        seq![b]
    } else if b == 32 {
        seq![43u8]
    } else {
        percent_byte(b)
    }
}

/// The `application/x-www-form-urlencoded` encoding of `bytes`.
pub open spec fn form_encoded(bytes: Seq<u8>) -> Seq<u8>
    decreases bytes.len(),
{
    if bytes.len() == 0 {
        Seq::empty()
    } else {
        form_encoded(bytes.drop_last()) + form_byte(bytes.last())
    }
}

/// The query `q` with one more parameter: `&`, then `name=value`, the value form-encoded.
pub open spec fn with_param(q: Seq<u8>, name: Seq<u8>, value: Seq<u8>) -> Seq<u8> {
    q + seq![38u8] + name + seq![61u8] + form_encoded(value)
}

/// What is left to download: the size of the file less what was downloaded,
/// and nothing once more was downloaded than the file holds.
pub open spec fn bytes_left(m: TrackerModel) -> nat {
    if m.downloaded > m.total_length {
        0
    } else {
        (m.total_length - m.downloaded) as nat
    }
}

/// The start of every query: the info hash and the peer id, every byte escaped.
pub open spec fn query_head(m: TrackerModel) -> Seq<u8> {
    "info_hash=".spec_bytes() + percent_all(m.info_hash.0@) + seq![38u8] + "peer_id=".spec_bytes()
        + percent_all(m.client_id.0@)
}

/// The query `q` with the `event` parameter, if the occasion has one.
pub open spec fn with_event(q: Seq<u8>, event: AnnounceEvent) -> Seq<u8> {
    match event {
        AnnounceEvent::Started => with_param(q, "event".spec_bytes(), "started".spec_bytes()),
        AnnounceEvent::Stopped => with_param(q, "event".spec_bytes(), "stopped".spec_bytes()),
        AnnounceEvent::Completed => with_param(q, "event".spec_bytes(), "completed".spec_bytes()),
        AnnounceEvent::Empty => q,
    }
}

/// The query `q` with the `trackerid` parameter, if a tracker gave an id.
pub open spec fn with_tracker_id(q: Seq<u8>, id: Option<Seq<char>>) -> Seq<u8> {
    match id {
        Some(text) => with_param(q, "trackerid".spec_bytes(), vstd::utf8::encode_utf8(text)),
        None => q,
    }
}

/// The query of an announce of `event`: the info hash and the peer id with
/// every byte escaped, then the port, the counters, what is left, the wish
/// for a compact answer and for fifty peers, then the event if the occasion
/// has one, then the tracker's id if a tracker gave one.
pub open spec fn announce_query(m: TrackerModel, event: AnnounceEvent) -> Seq<u8> {
    let q1 = with_param(query_head(m), "port".spec_bytes(), decimal_bytes(m.port as nat));
    let q2 = with_param(q1, "uploaded".spec_bytes(), decimal_bytes(m.uploaded as nat));
    let q3 = with_param(q2, "downloaded".spec_bytes(), decimal_bytes(m.downloaded as nat));
    let q4 = with_param(q3, "left".spec_bytes(), decimal_bytes(bytes_left(m)));
    let q5 = with_param(q4, "compact".spec_bytes(), "1".spec_bytes());
    let q6 = with_param(q5, "numwant".spec_bytes(), decimal_bytes(DEFAULT_PEER_COUNT as nat));
    with_tracker_id(with_event(q6, event), m.tracker_id)
}

/// `url::form_urlencoded::byte_serialize`, its pieces joined: letters,
/// digits, `*`, `-`, `.` and `_` stay, a space becomes `+`, and every other
/// byte becomes `%` and its two upper-case hexadecimal digits.
#[verifier::external_body]
fn form_encode(input: &[u8]) -> (out: Vec<u8>)
    ensures
        out@ == form_encoded(input@),
{
    url::form_urlencoded::byte_serialize(input).collect::<String>().into_bytes()
}

/// The upper-case hexadecimal digit of `d`.
fn hex_digit(d: u8) -> (c: u8)
    requires
        d < 16,
    ensures
        c == hex_upper(d),
{
    if d < 10 {
        48 + d
    } else {
        55 + d
    }
}

/// Appends every byte of `bytes` as `%` and two digits.
fn put_percent_all(out: &mut Vec<u8>, bytes: &[u8])
    ensures
        final(out)@ == old(out)@ + percent_all(bytes@),
{
    let mut i: usize = 0;
    assert(bytes@.subrange(0, 0) =~= Seq::<u8>::empty());
    while i < bytes.len()
        invariant
            i <= bytes@.len(),
            out@ == old(out)@ + percent_all(bytes@.subrange(0, i as int)),
        decreases bytes@.len() - i,
    {
        let b: u8 = bytes[i];
        assert(bytes@.subrange(0, i + 1).drop_last() =~= bytes@.subrange(0, i as int));
        out.push(37u8);
        out.push(hex_digit(b / 16));
        out.push(hex_digit(b % 16));
        assert(out@ =~= old(out)@ + percent_all(bytes@.subrange(0, i + 1)));
        i += 1;
    }
    assert(bytes@.subrange(0, bytes@.len() as int) =~= bytes@);
}

/// Appends `&`, then `name=value` with the value form-encoded.
fn put_param(out: &mut Vec<u8>, name: &str, value: &[u8])
    ensures
        final(out)@ == with_param(old(out)@, name.spec_bytes(), value@),
{
    out.push(38u8);
    out.extend_from_slice(name.as_bytes());
    out.push(61u8);
    let encoded: Vec<u8> = form_encode(value);
    out.extend_from_slice(encoded.as_slice());
    assert(out@ =~= with_param(old(out)@, name.spec_bytes(), value@));
}

/// Appends `&`, then `name=` and the digits of `n`, form-encoded.
fn put_number(out: &mut Vec<u8>, name: &str, n: u64)
    ensures
        final(out)@ == with_param(old(out)@, name.spec_bytes(), decimal_bytes(n as nat)),
{
    let mut digits: Vec<u8> = Vec::new();
    put_decimal(&mut digits, n);
    assert(digits@ =~= decimal_bytes(n as nat));
    put_param(out, name, digits.as_slice());
}

/// A place in the tier list: tracker `index` of tier `tier`.
#[derive(Debug, Clone, Copy, PartialEq, Eq, Structural)]
pub struct TrackerCursor {
    pub tier: usize,
    pub index: usize,
}

/// Whether `at` names a tracker of `tiers`.
pub open spec fn names_tracker(tiers: Seq<Seq<String>>, at: TrackerCursor) -> bool {
    at.tier < tiers.len() && at.index < tiers[at.tier as int].len()
}

/// Whether `at` is the first tracker of `tiers` that is tried from tier
/// `from` on: the first tracker of the first tier, at or after `from`, that has any.
pub open spec fn first_from(tiers: Seq<Seq<String>>, from: int, at: Option<TrackerCursor>) -> bool {
    match at {
        Some(c) => {
            &&& from <= c.tier
            &&& c.index == 0
            &&& names_tracker(tiers, c)
            &&& forall|t: int| from <= t < c.tier ==> (#[trigger] tiers[t]).len() == 0
        },
        None => forall|t: int| from <= t < tiers.len() ==> (#[trigger] tiers[t]).len() == 0,
    }
}

/// Tier `tier` after its tracker `index` moved to the front.
pub open spec fn promoted(tier: Seq<String>, index: int) -> Seq<String> {
    seq![tier[index]] + tier.remove(index)
}

/// The state of the announces of one torrent.
pub struct TrackerClient {
    info_hash: InfoHash,
    total_length: u64,
    client_id: PeerId,
    tiers: Vec<Vec<String>>,
    current_tracker_url: Option<String>,
    tracker_id: Option<String>,
    port: u16,
    upload_total: u64,
    download_total: u64,
    announced: bool,
    completed_sent: bool,
    interval: u32,
}

/// The state of the announces as a mathematical value.
pub struct TrackerModel {
    pub info_hash: InfoHash,
    pub client_id: PeerId,
    /// Size of the torrent's file.
    pub total_length: u64,
    /// The tiers of trackers, in the order in which they are tried.
    pub tiers: Seq<Seq<String>>,
    /// The tracker that answered last.
    pub current_tracker_url: Option<String>,
    /// The id that a tracker asked to be told again.
    pub tracker_id: Option<Seq<char>>,
    pub port: u16,
    pub uploaded: u64,
    pub downloaded: u64,
    /// A `started` announce has succeeded.
    pub announced: bool,
    /// A `completed` announce has succeeded.
    pub completed_sent: bool,
    /// Seconds to wait between two announces.
    pub interval: u32,
}

impl View for TrackerClient {
    type V = TrackerModel;

    closed spec fn view(&self) -> TrackerModel {
        TrackerModel {
            info_hash: self.info_hash,
            client_id: self.client_id,
            total_length: self.total_length,
            tiers: Seq::new(self.tiers@.len(), |t: int| self.tiers@[t]@),
            current_tracker_url: self.current_tracker_url,
            tracker_id: match self.tracker_id {
                Some(id) => Some(id@),
                None => None,
            },
            port: self.port,
            uploaded: self.upload_total,
            downloaded: self.download_total,
            announced: self.announced,
            completed_sent: self.completed_sent,
            interval: self.interval,
        }
    }
}

/// `SliceRandom::shuffle` of the `rand` crate with the thread's generator:
/// the items change places among themselves. Which order comes out is left to chance.
#[verifier::external_body]
fn shuffle(tier: &mut Vec<String>)
    ensures
        final(tier)@.to_multiset() == old(tier)@.to_multiset(),
        final(tier)@.len() == old(tier)@.len(),
{
    tier.shuffle(&mut rand::rng())
}

/// A copy of every tier of `list`, shuffled.
fn shuffled_tiers(list: &Vec<Vec<String>>) -> (tiers: Vec<Vec<String>>)
    ensures
        tiers@.len() == list@.len(),
        forall|t: int|
            0 <= t < list@.len() ==> (#[trigger] tiers@[t])@.to_multiset()
                == list@[t]@.to_multiset(),
{
    let mut tiers: Vec<Vec<String>> = Vec::new();
    let mut t: usize = 0;
    while t < list.len()
        invariant
            t <= list@.len(),
            tiers@.len() == t,
            forall|u: int|
                0 <= u < t ==> (#[trigger] tiers@[u])@.to_multiset() == list@[u]@.to_multiset(),
        decreases list@.len() - t,
    {
        let mut tier: Vec<String> = Vec::new();
        let mut i: usize = 0;
        while i < list[t].len()
            invariant
                t < list@.len(),
                i <= list@[t as int]@.len(),
                tier@ == list@[t as int]@.subrange(0, i as int),
            decreases list@[t as int]@.len() - i,
        {
            tier.push(list[t][i].clone());
            assert(tier@ =~= list@[t as int]@.subrange(0, i + 1));
            i += 1;
        }
        assert(tier@ =~= list@[t as int]@);
        shuffle(&mut tier);
        tiers.push(tier);
        t += 1;
    }
    tiers
}

impl TrackerClient {
    /// The announces of `torrent` in the name of `client_id`.
    ///
    /// With a tier list, the tiers keep their order and each is shuffled;
    /// without one, the announce URL is the only tracker of the only tier.
    pub fn new(torrent: Arc<TorrentInfo>, client_id: PeerId) -> (client: Self)
        ensures
            client@.info_hash == torrent.info_hash,
            client@.client_id == client_id,
            client@.total_length == if torrent.info.length < 0 {
                0
            } else {
                torrent.info.length
            },
            client@.port == DEFAULT_PORT,
            client@.uploaded == 0,
            client@.downloaded == 0,
            client@.tracker_id is None,
            client@.current_tracker_url is None,
            !client@.announced,
            !client@.completed_sent,
            client@.interval == DEFAULT_ANNOUNCE_INTERVAL,
            match torrent.announce_list {
                Some(list) => {
                    &&& client@.tiers.len() == list@.len()
                    &&& forall|t: int|
                        0 <= t < list@.len() ==> (#[trigger] client@.tiers[t]).to_multiset()
                            == list@[t]@.to_multiset()
                },
                None => client@.tiers == seq![seq![torrent.announce]],
            },
    {
        let list: &Option<Vec<Vec<String>>> = &torrent.announce_list;
        let announce: &String = &torrent.announce;
        let tiers: Vec<Vec<String>> = match list {
            Some(announce_list) => shuffled_tiers(announce_list),
            None => {
                let mut only: Vec<String> = Vec::new();
                only.push(announce.clone());
                let mut tiers: Vec<Vec<String>> = Vec::new();
                tiers.push(only);
                tiers
            },
        };
        let client = Self {
            info_hash: torrent.info_hash,
            total_length: if torrent.info.length < 0 {
                0
            } else {
                torrent.info.length as u64
            },
            client_id,
            tiers,
            current_tracker_url: None,
            tracker_id: None,
            port: DEFAULT_PORT,
            upload_total: 0,
            download_total: 0,
            announced: false,
            completed_sent: false,
            interval: DEFAULT_ANNOUNCE_INTERVAL,
        };
        proof {
            if list is None {
                assert(client@.tiers[0] =~= seq![*announce]);
                assert(client@.tiers =~= seq![seq![*announce]]);
            }
        }
        client
    }

    /// Sets the port that is announced.
    pub fn set_port(&mut self, port: u16)
        ensures
            final(self)@ == (TrackerModel { port, ..old(self)@ }),
    {
        self.port = port;
    }

    /// Sets the numbers of bytes uploaded and downloaded that are announced.
    pub fn update_stats(&mut self, uploaded: u64, downloaded: u64)
        ensures
            final(self)@ == (TrackerModel { uploaded, downloaded, ..old(self)@ }),
    {
        self.upload_total = uploaded;
        self.download_total = downloaded;
    }

    /// The tracker that answered last.
    pub fn current_tracker_url(&self) -> (url: Option<&String>)
        ensures
            match url {
                Some(u) => self@.current_tracker_url == Some(*u),
                None => self@.current_tracker_url is None,
            },
    {
        self.current_tracker_url.as_ref()
    }

    /// The first tracker of a tier at or after `from` that has one.
    fn first_in_tiers(&self, from: usize) -> (at: Option<TrackerCursor>)
        ensures
            first_from(self@.tiers, from as int, at),
    {
        let mut t: usize = from;
        while t < self.tiers.len()
            invariant
                from <= t,
                forall|u: int|
                    from <= u < t && u < self@.tiers.len() ==> (#[trigger] self@.tiers[u]).len()
                        == 0,
            decreases self.tiers@.len() - t,
        {
            if self.tiers[t].len() > 0 {
                return Some(TrackerCursor { tier: t, index: 0 });
            }
            t += 1;
        }
        None
    }

    /// The tracker to announce to first: the first of the first tier that has one.
    pub fn first_tracker(&self) -> (at: Option<TrackerCursor>)
        ensures
            first_from(self@.tiers, 0, at),
    {
        self.first_in_tiers(0)
    }

    /// The tracker to try after the announce to `after` failed: the next of
    /// the same tier, or else the first of the next tier that has one. `None`
    /// means that no tracker is left: the announce failed with `NoWorkingTrackers`.
    pub fn next_tracker(&self, after: TrackerCursor) -> (at: Option<TrackerCursor>)
        ensures
            if after.tier < self@.tiers.len() && after.index + 1
                < self@.tiers[after.tier as int].len() {
                at == Some(TrackerCursor { tier: after.tier, index: (after.index + 1) as usize })
            } else if after.tier < usize::MAX {
                first_from(self@.tiers, after.tier + 1, at)
            } else {
                at is None
            },
    {
        if after.tier < self.tiers.len() {
            let in_tier: usize = self.tiers[after.tier].len();
            if in_tier > 0 && after.index < in_tier - 1 {
                return Some(TrackerCursor { tier: after.tier, index: after.index + 1 });
            }
        }
        if after.tier == usize::MAX {
            return None;
        }
        self.first_in_tiers(after.tier + 1)
    }

    /// The URL of tracker `at`, if there is such a tracker.
    pub fn tracker_url(&self, at: TrackerCursor) -> (url: Option<&String>)
        ensures
            match url {
                Some(u) => names_tracker(self@.tiers, at) && *u
                    == self@.tiers[at.tier as int][at.index as int],
                None => !names_tracker(self@.tiers, at),
            },
    {
        if at.tier < self.tiers.len() && at.index < self.tiers[at.tier].len() {
            Some(&self.tiers[at.tier][at.index])
        } else {
            None
        }
    }

    /// The error of an announce that no tracker answered.
    pub fn no_tracker_left(&self) -> (e: TrackerError)
        ensures
            e is NoWorkingTrackers,
    {
        TrackerError::NoWorkingTrackers
    }

    /// The query of an announce of `event`, as the bytes of its text.
    pub fn query(&self, event: AnnounceEvent) -> (out: Vec<u8>)
        ensures
            out@ == announce_query(self@, event),
    {
        let mut out: Vec<u8> = Vec::new();
        out.extend_from_slice("info_hash=".as_bytes());
        put_percent_all(&mut out, self.info_hash.0.as_slice());
        out.push(38u8);
        out.extend_from_slice("peer_id=".as_bytes());
        put_percent_all(&mut out, self.client_id.0.as_slice());
        assert(out@ =~= query_head(self@));
        put_number(&mut out, "port", self.port as u64);
        put_number(&mut out, "uploaded", self.upload_total);
        put_number(&mut out, "downloaded", self.download_total);
        let left: u64 = if self.download_total > self.total_length {
            0
        } else {
            self.total_length - self.download_total
        };
        put_number(&mut out, "left", left);
        put_param(&mut out, "compact", "1".as_bytes());
        put_number(&mut out, "numwant", DEFAULT_PEER_COUNT as u64);
        match event.as_str() {
            Some(name) => {
                put_param(&mut out, "event", name.as_bytes());
            },
            None => {},
        }
        match &self.tracker_id {
            Some(id) => {
                put_param(&mut out, "trackerid", id.as_str().as_bytes());
            },
            None => {},
        }
        out
    }

    /// Reads the answer of a tracker.
    ///
    /// A `failure reason` is the tracker's refusal. Otherwise the answer's
    /// `tracker id`, if it has one, is kept for the announces to come, and
    /// the status is what the answer reports: the interval, or the default
    /// where it gives none above zero; the minimum interval; the numbers of
    /// complete and incomplete peers, zero where it gives none; and the peers.
    pub fn parse_announce(&mut self, response: &Bencode) -> (r: Result<TrackerStatus, TrackerError>)
        ensures
            match announce_outcome(response@) {
                Ok(status) => r is Ok && r->Ok_0@ == status,
                Err(e) => r is Err && r->Err_0@ == e,
            },
            final(self)@ == (TrackerModel {
                tracker_id: if text_of(response@, "failure reason".spec_bytes()) is None && text_of(
                    response@,
                    "tracker id".spec_bytes(),
                ) is Some {
                    text_of(response@, "tracker id".spec_bytes())
                } else {
                    old(self)@.tracker_id
                },
                ..old(self)@
            }),
    {
        match get_text(response, "failure reason".as_bytes()) {
            Some(reason) => {
                return Err(TrackerError::TrackerError(reason));
            },
            None => {},
        }
        let interval: u32 = match response.get("interval".as_bytes()) {
            Some(Bencode::Int(i)) => if *i > 0 {
                wrap_u32(*i)
            } else {
                DEFAULT_ANNOUNCE_INTERVAL
            },
            _ => DEFAULT_ANNOUNCE_INTERVAL,
        };
        let min_interval: Option<u32> = match response.get("min interval".as_bytes()) {
            Some(Bencode::Int(i)) => if *i > 0 {
                Some(wrap_u32(*i))
            } else {
                None
            },
            _ => None,
        };
        let tracker_id: Option<String> = get_text(response, "tracker id".as_bytes());
        match &tracker_id {
            Some(id) => {
                self.tracker_id = Some(id.clone());
            },
            None => {},
        }
        let complete: u32 = get_count(response, "complete".as_bytes());
        let incomplete: u32 = get_count(response, "incomplete".as_bytes());
        let peers: Vec<Peer> = match parse_peers(response) {
            Ok(peers) => peers,
            Err(e) => {
                return Err(e);
            },
        };
        Ok(TrackerStatus { interval, min_interval, tracker_id, complete, incomplete, peers })
    }

    /// Reads the body of a tracker's answer: it must be bencoded, and is
    /// then read as `parse_announce` reads it. A body that is not bencoded
    /// changes nothing.
    pub fn read_response(&mut self, body: &[u8]) -> (r: Result<TrackerStatus, TrackerError>)
        ensures
            match decoding(body@) {
                Err(e) => {
                    &&& r is Err
                    &&& r->Err_0@ == TrackerErrorModel::BencodeError(e)
                    &&& final(self)@ == old(self)@
                },
                Ok(response) => {
                    &&& match announce_outcome(response) {
                        Ok(status) => r is Ok && r->Ok_0@ == status,
                        Err(e) => r is Err && r->Err_0@ == e,
                    }
                    &&& final(self)@ == (TrackerModel {
                        tracker_id: if text_of(response, "failure reason".spec_bytes()) is None
                            && text_of(response, "tracker id".spec_bytes()) is Some {
                            text_of(response, "tracker id".spec_bytes())
                        } else {
                            old(self)@.tracker_id
                        },
                        ..old(self)@
                    })
                },
            },
    {
        match Bencode::decode(body) {
            Err(e) => Err(TrackerError::BencodeError(e)),
            Ok(response) => self.parse_announce(&response),
        }
    }

    /// The occasion of the next regular announce: `Started` until an
    /// announce of that occasion has succeeded, none afterwards.
    pub fn next_event(&self) -> (event: AnnounceEvent)
        ensures
            event == if self@.announced {
                AnnounceEvent::Empty
            } else {
                AnnounceEvent::Started
            },
    {
        if self.announced {
            AnnounceEvent::Empty
        } else {
            AnnounceEvent::Started
        }
    }

    /// The occasion of the next announce, given whether the download is
    /// `finished`: `Started` until an announce of that occasion has
    /// succeeded; after that `Completed`, for a finished download and until an
    /// announce of that occasion has succeeded; and none otherwise.
    pub fn event_for(&self, finished: bool) -> (event: AnnounceEvent)
        ensures
            event == if !self@.announced {
                AnnounceEvent::Started
            } else if finished && !self@.completed_sent {
                AnnounceEvent::Completed
            } else {
                AnnounceEvent::Empty
            },
    {
        if !self.announced {
            AnnounceEvent::Started
        } else if finished && !self.completed_sent {
            AnnounceEvent::Completed
        } else {
            AnnounceEvent::Empty
        }
    }

    /// Whether the end of the download is still to be announced: it is
    /// announced once, and only after a `Started` announce has succeeded.
    pub fn owes_completed(&self) -> (owed: bool)
        ensures
            owed == (self@.announced && !self@.completed_sent),
    {
        self.announced && !self.completed_sent
    }

    /// Notes that tracker `at` answered the announce of `event` with
    /// `status`, and says how many seconds to wait before the next announce:
    /// the interval that the tracker named. The tracker moves to the front of
    /// its tier and becomes the current tracker; a cursor that names no
    /// tracker leaves the tiers and the current tracker as they are.
    pub fn announce_succeeded(
        &mut self,
        event: AnnounceEvent,
        at: TrackerCursor,
        status: &TrackerStatus,
    ) -> (wait: u32)
        ensures
            wait == status.interval,
            final(self)@ == (TrackerModel {
                tiers: if names_tracker(old(self)@.tiers, at) {
                    old(self)@.tiers.update(
                        at.tier as int,
                        promoted(old(self)@.tiers[at.tier as int], at.index as int),
                    )
                } else {
                    old(self)@.tiers
                },
                current_tracker_url: if names_tracker(old(self)@.tiers, at) {
                    Some(old(self)@.tiers[at.tier as int][at.index as int])
                } else {
                    old(self)@.current_tracker_url
                },
                announced: old(self)@.announced || event == AnnounceEvent::Started,
                completed_sent: old(self)@.completed_sent || event == AnnounceEvent::Completed,
                interval: status.interval,
                ..old(self)@
            }),
    {
        self.promote(at);
        if event == AnnounceEvent::Started {
            self.announced = true;
        }
        if event == AnnounceEvent::Completed {
            self.completed_sent = true;
        }
        self.interval = status.interval;
        self.interval
    }

    /// Says how many seconds to wait after an announce that every tracker
    /// failed: the interval of the last answer, or the default before any.
    /// Nothing changes, so the next announce is of the same occasion.
    pub fn announce_failed(&self) -> (wait: u32)
        ensures
            wait == self@.interval,
    {
        self.interval
    }

    /// Notes that tracker `at` answered an announce: it moves to the front of
    /// its tier and becomes the current tracker. A cursor that names no
    /// tracker changes nothing.
    pub fn promote(&mut self, at: TrackerCursor)
        ensures
            names_tracker(old(self)@.tiers, at) ==> final(self)@ == (TrackerModel {
                tiers: old(self)@.tiers.update(
                    at.tier as int,
                    promoted(old(self)@.tiers[at.tier as int], at.index as int),
                ),
                current_tracker_url: Some(old(self)@.tiers[at.tier as int][at.index as int]),
                ..old(self)@
            }),
            !names_tracker(old(self)@.tiers, at) ==> final(self)@ == old(self)@,
    {
        if at.tier < self.tiers.len() && at.index < self.tiers[at.tier].len() {
            let mut tier: Vec<String> = Vec::new();
            let url: String = self.tiers[at.tier][at.index].clone();
            tier.push(url.clone());
            let mut i: usize = 0;
            while i < self.tiers[at.tier].len()
                invariant
                    at.tier < self.tiers@.len(),
                    at.index < self.tiers@[at.tier as int]@.len(),
                    i <= self.tiers@[at.tier as int]@.len(),
                    self.tiers == old(self).tiers,
                    url == self.tiers@[at.tier as int]@[at.index as int],
                    tier@.len() == 1 + i - (if i > at.index {
                        1int
                    } else {
                        0int
                    }),
                    tier@[0] == url,
                    forall|j: int|
                        0 <= j < i && j < at.index ==> tier@[j + 1]
                            == self.tiers@[at.tier as int]@[j],
                    forall|j: int|
                        at.index < j < i ==> tier@[j] == self.tiers@[at.tier as int]@[j],
                decreases self.tiers@[at.tier as int]@.len() - i,
            {
                if i != at.index {
                    tier.push(self.tiers[at.tier][i].clone());
                }
                i += 1;
            }
            assert(tier@ =~= promoted(old(self)@.tiers[at.tier as int], at.index as int));
            self.tiers.set(at.tier, tier);
            self.current_tracker_url = Some(url);
            assert(self@.tiers =~= old(self)@.tiers.update(
                at.tier as int,
                promoted(old(self)@.tiers[at.tier as int], at.index as int),
            ));
        }
    }
}

} // verus!

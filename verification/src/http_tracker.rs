//! The announce as the daemon makes it: one tracker, one request.

use crate::bencode::{
    decimal_bytes, digits_end, digits_value, lemma_values_of, put_decimal, scan_digits, value_of,
    values_of, Bencode, Value,
};
use crate::tracker::{percent_byte, DEFAULT_ANNOUNCE_INTERVAL, DEFAULT_PORT};
use crate::types::{InfoHash, PeerAddr};
use vstd::prelude::*;
use vstd::string::StringSliceAdditionalSpecFns;
use vstd::utf8::{decode_utf8, valid_utf8};

verus! {

/// The occasion of an announce.
#[derive(Debug, Clone, Copy, PartialEq, Eq, Structural)]
pub enum Event {
    Empty,
    Started,
    Completed,
    Stopped,
}

/// What an announce tells the tracker.
#[derive(Debug)]
pub struct TrackerRequest {
    pub info_hash: InfoHash,
    pub peer_id: [u8; 20],
    pub port: u16,
    pub uploaded: u64,
    pub downloaded: u64,
    pub left: u64,
    pub compact: bool,
    pub event: Event,
}

/// A request to the tracker's actor.
#[derive(Debug)]
pub enum TrackerMessage {
    Announce { event: Event, info_hash: [u8; 20], downloaded: u64, uploaded: u64, left: u64 },
}

/// What the tracker's actor needs from its surroundings; nothing so far.
pub struct TrackerContext {

}

/// Whether percent-encoding leaves `b` as it is: letters, digits, `-`, `.`, `_` and `~`.
pub open spec fn unreserved(b: u8) -> bool {
    (48 <= b <= 57) || (65 <= b <= 90) || (97 <= b <= 122) || b == 45 || b == 46 || b == 95 || b
        == 126
}

/// The percent-encoding of `bytes`: unreserved bytes as they are, every
/// other byte as `%` and two upper-case hexadecimal digits.
pub open spec fn percent_encoded(bytes: Seq<u8>) -> Seq<u8>
    decreases bytes.len(),
{
    if bytes.len() == 0 {
        Seq::empty()
    } else {
        percent_encoded(bytes.drop_last()) + if unreserved(bytes.last()) {
            seq![bytes.last()]
        } else {
            percent_byte(bytes.last())
        }
    }
}

/// The `event` parameter of `event`, with its `&`, or nothing.
pub open spec fn event_param(event: Event) -> Seq<u8> {
    match event {
        Event::Started => "&event=started".spec_bytes(),
        Event::Completed => "&event=completed".spec_bytes(),
        Event::Stopped => "&event=stopped".spec_bytes(),
        Event::Empty => Seq::empty(),
    }
}

/// The query of the announce `req`.
pub open spec fn request_query(req: TrackerRequest) -> Seq<u8> {
    "info_hash=".spec_bytes() + percent_encoded(req.info_hash.0@) + "&peer_id=".spec_bytes()
        + percent_encoded(req.peer_id@) + "&port=".spec_bytes() + decimal_bytes(req.port as nat)
        + "&uploaded=".spec_bytes() + decimal_bytes(req.uploaded as nat)
        + "&downloaded=".spec_bytes() + decimal_bytes(req.downloaded as nat) + "&left=".spec_bytes()
        + decimal_bytes(req.left as nat) + "&compact=".spec_bytes() + (if req.compact {
        "1".spec_bytes()
    } else {
        "0".spec_bytes()
    }) + event_param(req.event)
}

/// `urlencoding::encode_binary`: letters, digits, `-`, `.`, `_` and `~` stay,
/// and every other byte becomes `%` and its two upper-case hexadecimal digits.
#[verifier::external_body]
fn percent_encode(data: &[u8]) -> (out: Vec<u8>)
    ensures
        out@ == percent_encoded(data@),
{
    urlencoding::encode_binary(data).into_owned().into_bytes()
}

/// Appends a piece of text.
fn put_text(out: &mut Vec<u8>, text: &str)
    ensures
        final(out)@ == old(out)@ + text.spec_bytes(),
{
    out.extend_from_slice(text.as_bytes());
}

impl TrackerRequest {
    /// An announce for `info_hash` with `left` bytes to go: the compact
    /// answer asked for, the default port, nothing transferred yet.
    pub fn new(info_hash: InfoHash, peer_id: [u8; 20], left: u64, event: Event) -> (req: Self)
        ensures
            req == (TrackerRequest {
                info_hash,
                peer_id,
                left,
                event,
                compact: true,
                port: DEFAULT_PORT,
                downloaded: 0,
                uploaded: 0,
            }),
            req.compact,
    {
        Self {
            info_hash,
            peer_id,
            left,
            event,
            compact: true,
            port: DEFAULT_PORT,
            downloaded: 0,
            uploaded: 0,
        }
    }

    /// The query to put behind the announce URL, as the bytes of its text.
    pub fn build_query(&self) -> (out: Vec<u8>)
        ensures
            out@ == request_query(*self),
    {
        let mut out: Vec<u8> = Vec::new();
        put_text(&mut out, "info_hash=");
        let hash: Vec<u8> = percent_encode(self.info_hash.0.as_slice());
        out.extend_from_slice(hash.as_slice());
        put_text(&mut out, "&peer_id=");
        let id: Vec<u8> = percent_encode(self.peer_id.as_slice());
        out.extend_from_slice(id.as_slice());
        put_text(&mut out, "&port=");
        put_decimal(&mut out, self.port as u64);
        put_text(&mut out, "&uploaded=");
        put_decimal(&mut out, self.uploaded);
        put_text(&mut out, "&downloaded=");
        put_decimal(&mut out, self.downloaded);
        put_text(&mut out, "&left=");
        put_decimal(&mut out, self.left);
        put_text(&mut out, "&compact=");
        if self.compact {
            put_text(&mut out, "1");
        } else {
            put_text(&mut out, "0");
        }
        let ghost head = out@;
        match self.event {
            Event::Started => put_text(&mut out, "&event=started"),
            Event::Completed => put_text(&mut out, "&event=completed"),
            Event::Stopped => put_text(&mut out, "&event=stopped"),
            Event::Empty => {
                assert(out@ =~= head + Seq::<u8>::empty());
            },
        }
        out
    }
}

/// What a tracker answered to the daemon.
#[derive(Debug, Clone)]
pub struct TrackerResponse {
    /// Seconds to wait before the next announce.
    pub interval: u64,
    pub peers: Vec<PeerAddr>,
    pub seeders: u64,
    pub leechers: u64,
}

/// Why the daemon's announce came to nothing.
#[derive(Debug)]
pub enum TrackerError {
    /// The tracker refused, giving this reason.
    TrackerFailure(String),
    /// The answer is malformed in this way.
    InvalidResponse(String),
    /// The peers are neither a byte string nor a list, or a dictionary of
    /// the list lacks its address or its port.
    InvalidPeerData,
}

/// An error as a mathematical value.
pub enum ErrorModel {
    TrackerFailure(Seq<char>),
    InvalidResponse(Seq<char>),
    InvalidPeerData,
}

impl View for TrackerError {
    type V = ErrorModel;

    open spec fn view(&self) -> ErrorModel {
        match self {
            TrackerError::TrackerFailure(reason) => ErrorModel::TrackerFailure(reason@),
            TrackerError::InvalidResponse(what) => ErrorModel::InvalidResponse(what@),
            TrackerError::InvalidPeerData => ErrorModel::InvalidPeerData,
        }
    }
}

/// An answer as a mathematical value.
pub struct ResponseModel {
    pub interval: u64,
    pub peers: Seq<PeerAddr>,
    pub seeders: u64,
    pub leechers: u64,
}

impl View for TrackerResponse {
    type V = ResponseModel;

    open spec fn view(&self) -> ResponseModel {
        ResponseModel {
            interval: self.interval,
            peers: self.peers@,
            seeders: self.seeders,
            leechers: self.leechers,
        }
    }
}

/// What the standard library says is wrong with `bytes` as UTF-8.
pub uninterp spec fn utf8_error_text(bytes: Seq<u8>) -> Seq<char>;

/// `String::from_utf8`, and `format!` of its error: the text that `bytes`
/// encode, or the complaint about a failure reason that is not UTF-8, which
/// ends with the standard library's own words.
#[verifier::external_body]
fn reason_text(bytes: &[u8]) -> (r: Result<String, String>)
    ensures
        match r {
            Ok(text) => valid_utf8(bytes@) && text@ == decode_utf8(bytes@),
            Err(complaint) => !valid_utf8(bytes@) && complaint@
                == "Failure reason is not valid UTF-8: "@ + utf8_error_text(bytes@),
        },
{
    match String::from_utf8(bytes.to_vec()) {
        Ok(text) => Ok(text),
        Err(e) => Err(format!("Failure reason is not valid UTF-8: {}", e)),
    }
}

/// The peer that six bytes stand for.
pub open spec fn compact_addr(chunk: Seq<u8>) -> PeerAddr {
    PeerAddr {
        ip: [chunk[0], chunk[1], chunk[2], chunk[3]],
        port: (chunk[4] as int * 256 + chunk[5] as int) as u16,
    }
}

/// The peers of a compact list: one for every six bytes; bytes left over
/// at the end are passed over.
pub open spec fn compact_addrs(bytes: Seq<u8>) -> Seq<PeerAddr> {
    Seq::new((bytes.len() / 6) as nat, |i: int| compact_addr(bytes.subrange(6 * i, 6 * i + 6)))
}

/// The count under `key`: zero without the key, the number if it is one and
/// not negative, and otherwise nothing.
pub open spec fn count_at(v: Value, key: Seq<u8>) -> Option<u64> {
    match v.get(key) {
        None => Some(0),
        Some(Value::Int(i)) => if i >= 0 {
            Some(i as u64)
        } else {
            None
        },
        Some(_) => None,
    }
}

/// The octet written at `from` in `text`, and where it ends: decimal digits
/// of a value up to 255, without a leading zero unless it is the single digit zero.
pub open spec fn octet_at(text: Seq<u8>, from: int) -> Option<(u8, int)> {
    let end = digits_end(text, from);
    let value = digits_value(text, from, end);
    if end == from || value > 255 || (end - from > 1 && text[from] == 48) {
        None
    } else {
        Some((value as u8, end))
    }
}

/// The octet written at `from` in `text` when a dot follows it, and where
/// the text goes on behind the dot.
pub open spec fn octet_and_dot(text: Seq<u8>, from: int) -> Option<(u8, int)> {
    match octet_at(text, from) {
        Some((value, end)) => if end < text.len() && text[end] == 46 {
            Some((value, end + 1))
        } else {
            None
        },
        None => None,
    }
}

/// The address that `text` writes as four octets with dots between them,
/// if it does.
pub open spec fn quad_of(text: Seq<u8>) -> Option<[u8; 4]> {
    match octet_and_dot(text, 0) {
        Some((a, second)) => match octet_and_dot(text, second) {
            Some((b, third)) => match octet_and_dot(text, third) {
                Some((c, fourth)) => match octet_at(text, fourth) {
                    Some((d, end)) => if end == text.len() {
                        Some([a, b, c, d])
                    } else {
                        None
                    },
                    None => None,
                },
                None => None,
            },
            None => None,
        },
        None => None,
    }
}

/// Whether the dictionary `item` of a list of peers is unusable: it lacks
/// an `ip` that is a byte string or a `port` that is a number from 0 to 65535.
pub open spec fn faulty_item(item: Value) -> bool {
    item is Dict && !({
        &&& item.get("ip".spec_bytes()) matches Some(Value::Bytes(_))
        &&& item.get("port".spec_bytes()) matches Some(Value::Int(port))
        &&& 0 <= port <= u16::MAX
    })
}

/// The peer that the item `item` of a list of peers names: a dictionary
/// whose `ip` writes four octets with dots between them names that address
/// with its `port`. Any other item names nobody.
pub open spec fn listed_addr(item: Value) -> Option<PeerAddr> {
    if !(item is Dict) || faulty_item(item) {
        None
    } else {
        match quad_of(item.get("ip".spec_bytes())->0->Bytes_0) {
            Some(ip) => Some(PeerAddr { ip, port: item.get("port".spec_bytes())->0->Int_0 as u16 }),
            None => None,
        }
    }
}

/// The peers that the items of a list name, in the order of the list.
pub open spec fn listed_addrs(items: Seq<Value>) -> Seq<PeerAddr>
    decreases items.len(),
{
    if items.len() == 0 {
        Seq::empty()
    } else {
        match listed_addr(items.last()) {
            Some(addr) => listed_addrs(items.drop_last()).push(addr),
            None => listed_addrs(items.drop_last()),
        }
    }
}

/// Seconds between announces that the answer `v` asks for: its `interval`
/// if that is a positive number, and the default if there is none or it is
/// not positive.
pub open spec fn interval_of(v: Value) -> u64 {
    match v.get("interval".spec_bytes()) {
        Some(Value::Int(i)) => if i > 0 {
            i as u64
        } else {
            DEFAULT_ANNOUNCE_INTERVAL as u64
        },
        _ => DEFAULT_ANNOUNCE_INTERVAL as u64,
    }
}

/// The peers of the answer `v`, in either of the two forms.
pub open spec fn peers_of(v: Value) -> Seq<PeerAddr> {
    match v.get("peers".spec_bytes()) {
        Some(Value::Bytes(bytes)) => compact_addrs(bytes),
        Some(Value::List(items)) => listed_addrs(items),
        _ => Seq::empty(),
    }
}

/// What is wrong with the failure reason or the interval of the answer `v`, if anything.
pub open spec fn response_fault(v: Value) -> Option<ErrorModel> {
    if !(v is Dict) {
        Some(ErrorModel::InvalidResponse("Response is not a dictionary"@))
    } else {
        match v.get("failure reason".spec_bytes()) {
            Some(Value::Bytes(reason)) => if valid_utf8(reason) {
                Some(ErrorModel::TrackerFailure(decode_utf8(reason)))
            } else {
                Some(
                    ErrorModel::InvalidResponse(
                        "Failure reason is not valid UTF-8: "@ + utf8_error_text(reason),
                    ),
                )
            },
            Some(_) => Some(ErrorModel::InvalidResponse("Failure reason is not a byte string"@)),
            None => match v.get("interval".spec_bytes()) {
                None => tail_fault(v),
                Some(Value::Int(_)) => tail_fault(v),
                Some(_) => Some(ErrorModel::InvalidResponse("Interval is not an integer"@)),
            },
        }
    }
}

/// What is wrong with the counts of the answer `v`, if anything.
pub open spec fn counts_fault(v: Value) -> Option<ErrorModel> {
    if count_at(v, "complete".spec_bytes()) is None {
        Some(ErrorModel::InvalidResponse("'complete' value is not a non-negative integer"@))
    } else if count_at(v, "incomplete".spec_bytes()) is None {
        Some(ErrorModel::InvalidResponse("'incomplete' value is not a non-negative integer"@))
    } else {
        None
    }
}

/// What is wrong with the peers or the counts of the answer `v`, if anything.
pub open spec fn tail_fault(v: Value) -> Option<ErrorModel> {
    match v.get("peers".spec_bytes()) {
        None => Some(ErrorModel::InvalidResponse("Missing 'peers' key"@)),
        Some(Value::Bytes(_)) => counts_fault(v),
        Some(Value::List(items)) => if exists|i: int|
            0 <= i < items.len() && faulty_item(#[trigger] items[i]) {
            Some(ErrorModel::InvalidPeerData)
        } else {
            counts_fault(v)
        },
        Some(_) => Some(ErrorModel::InvalidPeerData),
    }
}

/// What the answer `v` reports, when nothing is wrong with it.
pub open spec fn response_of(v: Value) -> ResponseModel {
    ResponseModel {
        interval: interval_of(v),
        peers: peers_of(v),
        seeders: count_at(v, "complete".spec_bytes())->0,
        leechers: count_at(v, "incomplete".spec_bytes())->0,
    }
}

/// The octet written at `from` in `text`, and where it ends.
fn read_octet(text: &[u8], from: usize) -> (r: Option<(u8, usize)>)
    requires
        from <= text@.len(),
    ensures
        match r {
            Some(found) => octet_at(text@, from as int) == Some((found.0, found.1 as int)) && from
                < found.1 <= text@.len(),
            None => octet_at(text@, from as int) is None,
        },
{
    let (end, value) = scan_digits(text, from);
    if end == from {
        return None;
    }
    if end - from > 1 && text[from] == 48 {
        return None;
    }
    match value {
        Some(v) => if v > 255 {
            None
        } else {
            Some((v as u8, end))
        },
        None => None,
    }
}

/// The octet written at `from` in `text` when a dot follows it, and where
/// the text goes on behind the dot.
fn read_octet_and_dot(text: &[u8], from: usize) -> (r: Option<(u8, usize)>)
    requires
        from <= text@.len(),
    ensures
        match r {
            Some(found) => octet_and_dot(text@, from as int) == Some((found.0, found.1 as int))
                && from < found.1 <= text@.len(),
            None => octet_and_dot(text@, from as int) is None,
        },
{
    match read_octet(text, from) {
        Some((value, end)) => if end < text.len() && text[end] == 46 {
            Some((value, end + 1))
        } else {
            None
        },
        None => None,
    }
}

/// Reads an address written as four octets with dots between them, such as
/// `10.0.0.1`. Each octet is a decimal number up to 255 without a leading
/// zero; any other text gives nothing.
pub fn parse_quad(text: &[u8]) -> (r: Option<[u8; 4]>)
    ensures
        r == quad_of(text@),
{
    let (a, second) = match read_octet_and_dot(text, 0) {
        Some(found) => found,
        None => {
            return None;
        },
    };
    let (b, third) = match read_octet_and_dot(text, second) {
        Some(found) => found,
        None => {
            return None;
        },
    };
    let (c, fourth) = match read_octet_and_dot(text, third) {
        Some(found) => found,
        None => {
            return None;
        },
    };
    match read_octet(text, fourth) {
        Some((d, end)) => if end == text.len() {
            Some([a, b, c, d])
        } else {
            None
        },
        None => None,
    }
}

/// The peer that one dictionary of a list of peers names, if it names one;
/// an unusable dictionary is an error.
fn read_listed(item: &Bencode) -> (r: Result<Option<PeerAddr>, TrackerError>)
    requires
        item@ is Dict,
    ensures
        match r {
            Ok(addr) => !faulty_item(item@) && addr == listed_addr(item@),
            Err(e) => faulty_item(item@) && e@ == ErrorModel::InvalidPeerData,
        },
{
    let ip: Option<[u8; 4]> = match item.get("ip".as_bytes()) {
        Some(Bencode::Bytes(text)) => parse_quad(text.as_slice()),
        _ => {
            return Err(TrackerError::InvalidPeerData);
        },
    };
    let port: u16 = match item.get("port".as_bytes()) {
        Some(Bencode::Int(p)) => {
            if *p < 0 || *p > 65535 {
                return Err(TrackerError::InvalidPeerData);
            }
            *p as u16
        },
        _ => {
            return Err(TrackerError::InvalidPeerData);
        },
    };
    match ip {
        Some(ip) => Ok(Some(PeerAddr { ip, port })),
        None => Ok(None),
    }
}

/// The peers that a list of dictionaries names; one unusable dictionary
/// spoils the list.
fn read_list(items: &Vec<Bencode>) -> (r: Result<Vec<PeerAddr>, TrackerError>)
    ensures
        match r {
            Ok(peers) => peers@ == listed_addrs(values_of(items@)) && forall|i: int|
                0 <= i < values_of(items@).len() ==> !faulty_item(#[trigger] values_of(items@)[i]),
            Err(e) => e@ == ErrorModel::InvalidPeerData && exists|i: int|
                0 <= i < values_of(items@).len() && faulty_item(#[trigger] values_of(items@)[i]),
        },
{
    let mut peers: Vec<PeerAddr> = Vec::new();
    let ghost values = values_of(items@);
    proof {
        lemma_values_of(items@);
    }
    let mut i: usize = 0;
    while i < items.len()
        invariant
            i <= items@.len(),
            values == values_of(items@),
            values.len() == items@.len(),
            forall|j: int| 0 <= j < items@.len() ==> #[trigger] values[j] == value_of(items@[j]),
            forall|j: int| 0 <= j < i ==> !faulty_item(#[trigger] values[j]),
            peers@ == listed_addrs(values.take(i as int)),
        decreases items@.len() - i,
    {
        let ghost upto = values.take(i + 1);
        assert(upto.last() == values[i as int]);
        assert(upto.drop_last() =~= values.take(i as int));
        let is_dict: bool = match &items[i] {
            Bencode::Dict(_) => true,
            _ => false,
        };
        if is_dict {
            match read_listed(&items[i]) {
                Ok(Some(addr)) => {
                    peers.push(addr);
                },
                Ok(None) => {},
                Err(e) => {
                    assert(faulty_item(values[i as int]));
                    return Err(e);
                },
            }
        }
        i += 1;
    }
    assert(values.take(i as int) =~= values);
    Ok(peers)
}

/// The count under `key`, or the complaint about it.
fn read_count(v: &Bencode, key: &str, complaint: &str) -> (r: Result<u64, TrackerError>)
    ensures
        match count_at(v@, key.spec_bytes()) {
            Some(n) => r is Ok && r->Ok_0 == n,
            None => r is Err && r->Err_0@ == ErrorModel::InvalidResponse(complaint@),
        },
{
    match v.get(key.as_bytes()) {
        None => Ok(0),
        Some(Bencode::Int(i)) => {
            if *i >= 0 {
                Ok(*i as u64)
            } else {
                Err(TrackerError::InvalidResponse(complaint.to_owned()))
            }
        },
        Some(_) => Err(TrackerError::InvalidResponse(complaint.to_owned())),
    }
}

impl TrackerResponse {
    /// The peers of a compact list.
    pub fn parse_peers(bytes: &[u8]) -> (peers: Vec<PeerAddr>)
        ensures
            peers@ == compact_addrs(bytes@),
    {
        let n: usize = bytes.len();
        let count: usize = n / 6;
        let mut peers: Vec<PeerAddr> = Vec::new();
        let mut i: usize = 0;
        while i < count
            invariant
                i <= count,
                n == bytes@.len(),
                count == n / 6,
                peers@.len() == i,
                forall|j: int|
                    0 <= j < i ==> #[trigger] peers@[j] == compact_addr(
                        bytes@.subrange(6 * j, 6 * j + 6),
                    ),
            decreases count - i,
        {
            let at: usize = 6 * i;
            let ghost chunk = bytes@.subrange(6 * i, 6 * i + 6);
            assert(chunk[0] == bytes@[at as int] && chunk[1] == bytes@[at + 1] && chunk[2]
                == bytes@[at + 2] && chunk[3] == bytes@[at + 3] && chunk[4] == bytes@[at + 4]
                && chunk[5] == bytes@[at + 5]);
            let ip: [u8; 4] = [bytes[at], bytes[at + 1], bytes[at + 2], bytes[at + 3]];
            let port: u16 = bytes[at + 4] as u16 * 256 + bytes[at + 5] as u16;
            peers.push(PeerAddr { ip, port });
            i += 1;
        }
        assert(peers@ =~= compact_addrs(bytes@));
        peers
    }

    /// Reads the answer of a tracker.
    ///
    /// The answer must be a dictionary. A failure reason is the tracker's
    /// refusal. Otherwise the interval is the number given, or the default
    /// where none is given or it is not positive. The peers are a byte string
    /// in the compact form or a list of dictionaries, each with the address
    /// as text under `ip` and a number under `port`; of such a list the
    /// addresses that are written as four octets are kept. The numbers of
    /// complete and incomplete peers are zero when they are missing.
    pub fn from_bencode(bencode_response: &Bencode) -> (r: Result<TrackerResponse, TrackerError>)
        ensures
            match response_fault(bencode_response@) {
                Some(e) => r is Err && r->Err_0@ == e,
                None => r is Ok && r->Ok_0@ == response_of(bencode_response@),
            },
    {
        let is_dict: bool = match bencode_response {
            Bencode::Dict(_) => true,
            _ => false,
        };
        if !is_dict {
            return Err(TrackerError::InvalidResponse("Response is not a dictionary".to_owned()));
        }
        match bencode_response.get("failure reason".as_bytes()) {
            Some(Bencode::Bytes(reason)) => {
                return match reason_text(reason.as_slice()) {
                    Ok(text) => Err(TrackerError::TrackerFailure(text)),
                    Err(complaint) => Err(TrackerError::InvalidResponse(complaint)),
                };
            },
            Some(_) => {
                return Err(
                    TrackerError::InvalidResponse("Failure reason is not a byte string".to_owned()),
                );
            },
            None => {},
        }
        let interval: u64 = match bencode_response.get("interval".as_bytes()) {
            None => DEFAULT_ANNOUNCE_INTERVAL as u64,
            Some(Bencode::Int(i)) => {
                if *i > 0 {
                    *i as u64
                } else {
                    DEFAULT_ANNOUNCE_INTERVAL as u64
                }
            },
            Some(_) => {
                return Err(TrackerError::InvalidResponse("Interval is not an integer".to_owned()));
            },
        };
        let peers: Vec<PeerAddr> = match bencode_response.get("peers".as_bytes()) {
            None => {
                return Err(TrackerError::InvalidResponse("Missing 'peers' key".to_owned()));
            },
            Some(Bencode::Bytes(bytes)) => TrackerResponse::parse_peers(bytes.as_slice()),
            Some(Bencode::List(items)) => {
                match read_list(items) {
                    Ok(peers) => peers,
                    Err(e) => {
                        proof {
                            let listed = bencode_response@.get("peers".spec_bytes())->0->List_0;
                            let i = choose|i: int|
                                0 <= i < listed.len() && faulty_item(#[trigger] listed[i]);
                            assert(faulty_item(listed[i]));
                        }
                        return Err(e);
                    },
                }
            },
            Some(_) => {
                return Err(TrackerError::InvalidPeerData);
            },
        };
        let seeders: u64 = match read_count(
            bencode_response,
            "complete",
            "'complete' value is not a non-negative integer",
        ) {
            Ok(n) => n,
            Err(e) => {
                return Err(e);
            },
        };
        let leechers: u64 = match read_count(
            bencode_response,
            "incomplete",
            "'incomplete' value is not a non-negative integer",
        ) {
            Ok(n) => n,
            Err(e) => {
                return Err(e);
            },
        };
        Ok(TrackerResponse { interval, peers, seeders, leechers })
    }
}

} // verus!

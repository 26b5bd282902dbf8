//! What a metainfo file says about a torrent, and the geometry of its pieces.

use crate::bencode::{encoding, lemma_values_of, value_of, values_of, Bencode, Value};
use crate::hash::{sha1_digest, sha1_of};
use crate::types::{InfoHash, PieceHash, PieceHashError};
use vstd::prelude::*;
use vstd::string::StringSliceAdditionalSpecFns;
use vstd::utf8::{decode_utf8, valid_utf8};

verus! {

/// The `info` dictionary of a single-file torrent.
#[derive(Debug)]
pub struct Info {
    /// Size of the file in bytes.
    pub length: i64,
    /// Name to save the file as.
    pub name: String,
    /// Number of bytes in each piece but possibly the last.
    pub piece_length: i64,
    /// Expected hash of each piece, in order.
    pub pieces: Vec<PieceHash>,
}

/// A parsed metainfo file.
#[derive(Debug)]
pub struct TorrentInfo {
    pub announce: String,
    pub announce_list: Option<Vec<Vec<String>>>,
    pub info: Info,
    pub info_hash: InfoHash,
}

/// What an `info` dictionary lacks.
#[derive(Debug, PartialEq, Eq)]
pub enum InfoError {
    MissingLength,
    MissingName,
    MissingPieceLength,
    MissingPieces,
    PieceHash(PieceHashError),
}

/// What a metainfo dictionary lacks.
#[derive(Debug, PartialEq, Eq)]
pub enum TorrentError {
    MissingAnnouce,
    MissingInfo,
    MisingInfo(InfoError),
    DecodingError,
}

/// `String::from_utf8`: the text that `bytes` encode, if they are UTF-8.
/// The text holds exactly these bytes.
#[verifier::external_body]
pub(crate) fn utf8_string(bytes: &[u8]) -> (text: Option<String>)
    ensures
        match text {
            Some(t) => valid_utf8(bytes@) && t@ == decode_utf8(bytes@) && vstd::utf8::encode_utf8(
                t@,
            ) == bytes@,
            None => !valid_utf8(bytes@),
        },
{
    String::from_utf8(bytes.to_vec()).ok()
}

/// What an `info` dictionary lacks, if it lacks anything: `length` and
/// `piece length` must be numbers, `name` a byte string that is UTF-8, and
/// `pieces` a byte string of whole hashes, twenty bytes each.
pub open spec fn info_fault(field: Value) -> Option<InfoError> {
    if !(field.get("length".spec_bytes()) matches Some(Value::Int(_))) {
        Some(InfoError::MissingLength)
    } else if !(field.get("name".spec_bytes()) matches Some(Value::Bytes(name)) && valid_utf8(
        name,
    )) {
        Some(InfoError::MissingName)
    } else if !(field.get("piece length".spec_bytes()) matches Some(Value::Int(_))) {
        Some(InfoError::MissingPieceLength)
    } else if !(field.get("pieces".spec_bytes()) matches Some(Value::Bytes(hashes)) && hashes.len()
        % 20 == 0) {
        Some(InfoError::MissingPieces)
    } else {
        None
    }
}

/// Whether `info` is what the `info` dictionary `field` says.
pub open spec fn info_matches(info: Info, field: Value) -> bool {
    &&& field.get("length".spec_bytes()) == Some(Value::Int(info.length))
    &&& field.get("name".spec_bytes()) matches Some(Value::Bytes(name))
    &&& info.name@ == decode_utf8(name)
    &&& vstd::utf8::encode_utf8(info.name@) == name
    &&& field.get("piece length".spec_bytes()) == Some(Value::Int(info.piece_length))
    &&& field.get("pieces".spec_bytes()) matches Some(Value::Bytes(hashes))
    &&& info.pieces@.len() == hashes.len() / 20
    &&& forall|i: int|
        0 <= i < info.pieces@.len() ==> (#[trigger] info.pieces@[i]).0@ == hashes.subrange(
            20 * i,
            20 * i + 20,
        )
}

/// The texts of a list of strings.
pub open spec fn texts(list: Seq<String>) -> Seq<Seq<char>> {
    Seq::new(list.len(), |i: int| list[i]@)
}

/// The texts of a list of lists of strings.
pub open spec fn tier_texts(list: Seq<Vec<String>>) -> Seq<Seq<Seq<char>>> {
    Seq::new(list.len(), |i: int| texts(list[i]@))
}

/// `first` in front of `rest`, if there is a `rest`.
pub open spec fn before<T>(first: T, rest: Option<Seq<T>>) -> Option<Seq<T>> {
    match rest {
        Some(list) => Some(seq![first] + list),
        None => None,
    }
}

/// `found` in front of `rest`, if there is a `rest`.
pub open spec fn all_before<T>(found: Seq<T>, rest: Option<Seq<T>>) -> Option<Seq<T>> {
    match rest {
        Some(list) => Some(found + list),
        None => None,
    }
}

/// The texts that `items` are, if each is a byte string that is UTF-8.
pub open spec fn texts_of(items: Seq<Value>) -> Option<Seq<Seq<char>>>
    decreases items.len(),
{
    if items.len() == 0 {
        Some(Seq::empty())
    } else {
        match items[0] {
            Value::Bytes(bytes) => if valid_utf8(bytes) {
                before(decode_utf8(bytes), texts_of(items.drop_first()))
            } else {
                None
            },
            _ => None,
        }
    }
}

/// The tiers that `items` are, if each is a list of texts.
pub open spec fn tiers_of(items: Seq<Value>) -> Option<Seq<Seq<Seq<char>>>>
    decreases items.len(),
{
    if items.len() == 0 {
        Some(Seq::empty())
    } else {
        match items[0] {
            Value::List(urls) => match texts_of(urls) {
                Some(tier) => before(tier, tiers_of(items.drop_first())),
                None => None,
            },
            _ => None,
        }
    }
}

/// The tier list of the metainfo `v`: what stands under `announce-list`, if
/// that is a list of lists of texts.
pub open spec fn announce_list_of(v: Value) -> Option<Seq<Seq<Seq<char>>>> {
    match v.get("announce-list".spec_bytes()) {
        Some(Value::List(tiers)) => tiers_of(tiers),
        _ => None,
    }
}

/// What the metainfo `v` lacks, if it lacks anything: `announce` must be a
/// byte string that is UTF-8, and `info` a dictionary that lacks nothing.
pub open spec fn torrent_fault(v: Value) -> Option<TorrentError> {
    if !(v.get("announce".spec_bytes()) matches Some(Value::Bytes(url)) && valid_utf8(url)) {
        Some(TorrentError::MissingAnnouce)
    } else {
        match v.get("info".spec_bytes()) {
            None => Some(TorrentError::MissingInfo),
            Some(info) => match info_fault(info) {
                Some(e) => Some(TorrentError::MisingInfo(e)),
                None => None,
            },
        }
    }
}

/// Whether `torrent` is what the metainfo `v` says: its announce URL, its
/// tier list if it has a proper one, its `info` dictionary, and as info hash
/// the SHA-1 of that dictionary's encoding.
pub open spec fn torrent_matches(torrent: TorrentInfo, v: Value) -> bool {
    &&& v.get("announce".spec_bytes()) matches Some(Value::Bytes(url))
    &&& torrent.announce@ == decode_utf8(url)
    &&& vstd::utf8::encode_utf8(torrent.announce@) == url
    &&& match torrent.announce_list {
        Some(list) => announce_list_of(v) == Some(tier_texts(list@)),
        None => announce_list_of(v) is None,
    }
    &&& v.get("info".spec_bytes()) matches Some(info)
    &&& info_matches(torrent.info, info)
    &&& torrent.info_hash.0@ == sha1_of(encoding(info))
}

/// Largest piece length accepted: what a signed 32-bit size can hold.
pub const MAX_PIECE_LENGTH: i64 = 0x7FFF_FFFF;

/// Number of pieces of a file of `length` bytes cut every `piece_length` bytes.
pub open spec fn piece_count(length: int, piece_length: int) -> int
    recommends
        length >= 0,
        piece_length > 0,
{
    if length % piece_length == 0 {
        length / piece_length
    } else {
        length / piece_length + 1
    }
}

/// Size of piece `index`: `piece_length` for every piece but the last, which
/// takes what is left of the file.
pub open spec fn piece_size(length: int, piece_length: int, index: int) -> int
    recommends
        length >= 0,
        piece_length > 0,
        0 <= index < piece_count(length, piece_length),
{
    if index < piece_count(length, piece_length) - 1 {
        piece_length
    } else {
        length - (piece_count(length, piece_length) - 1) * piece_length
    }
}

/// Every piece of a well-formed geometry is non-empty and no longer than
/// `piece_length`; the last piece of a file that is not a multiple of
/// `piece_length` holds the remainder.
pub proof fn lemma_piece_size(length: int, piece_length: int, index: int)
    requires
        length >= 0,
        piece_length > 0,
        0 <= index < piece_count(length, piece_length),
    ensures
        0 < piece_size(length, piece_length, index) <= piece_length,
        index * piece_length + piece_size(length, piece_length, index) <= length,
        index == piece_count(length, piece_length) - 1 ==> index * piece_length + piece_size(
            length,
            piece_length,
            index,
        ) == length,
        index == piece_count(length, piece_length) - 1 && length % piece_length != 0
            ==> piece_size(length, piece_length, index) == length % piece_length,
{
    let n = piece_count(length, piece_length);
    let q = length / piece_length;
    let r = length % piece_length;
    assert(length == q * piece_length + r) by (nonlinear_arith)
        requires
            piece_length > 0,
            q == length / piece_length,
            r == length % piece_length,
    ;
    assert(0 <= r < piece_length);
    assert(q >= 0) by (nonlinear_arith)
        requires
            piece_length > 0,
            length >= 0,
            q == length / piece_length,
    ;
    assert((n - 1) * piece_length == n * piece_length - piece_length) by (nonlinear_arith);
    if index < n - 1 {
        assert((index + 1) * piece_length <= (n - 1) * piece_length) by (nonlinear_arith)
            requires
                index + 1 <= n - 1,
                piece_length > 0,
        ;
        assert((index + 1) * piece_length == index * piece_length + piece_length)
            by (nonlinear_arith);
    }
}

/// Cuts a byte string of whole hashes into the hashes.
fn split_hashes(bytes: &Vec<u8>) -> (hashes: Vec<PieceHash>)
    requires
        bytes@.len() % 20 == 0,
    ensures
        hashes@.len() == bytes@.len() / 20,
        forall|i: int|
            0 <= i < hashes@.len() ==> (#[trigger] hashes@[i]).0@ == bytes@.subrange(
                20 * i,
                20 * i + 20,
            ),
{
    let n: usize = bytes.len();
    let count: usize = n / 20;
    let mut hashes: Vec<PieceHash> = Vec::new();
    let mut i: usize = 0;
    while i < count
        invariant
            i <= count,
            n == bytes@.len(),
            20 * count == n,
            hashes@.len() == i,
            forall|j: int|
                0 <= j < i ==> (#[trigger] hashes@[j]).0@ == bytes@.subrange(20 * j, 20 * j + 20),
        decreases count - i,
    {
        let chunk = vstd::slice::slice_subrange(bytes.as_slice(), 20 * i, 20 * i + 20);
        match PieceHash::try_from(chunk) {
            Ok(hash) => {
                hashes.push(hash);
            },
            Err(_) => {
                assert(false);
            },
        }
        i += 1;
    }
    hashes
}

/// The hashes of `pieces`, one after the other.
pub open spec fn joined_hashes(pieces: Seq<PieceHash>) -> Seq<u8>
    decreases pieces.len(),
{
    if pieces.len() == 0 {
        Seq::empty()
    } else {
        joined_hashes(pieces.drop_last()) + pieces.last().0@
    }
}

/// The `info` dictionary that says what `info` says.
pub open spec fn info_value(info: Info) -> Value {
    Value::Dict(
        seq![
            ("length".spec_bytes(), Value::Int(info.length)),
            ("name".spec_bytes(), Value::Bytes(vstd::utf8::encode_utf8(info.name@))),
            ("piece length".spec_bytes(), Value::Int(info.piece_length)),
            ("pieces".spec_bytes(), Value::Bytes(joined_hashes(info.pieces@))),
        ],
    )
}

/// The key `name` as the key of a dictionary.
fn key_of(name: &str) -> (key: Vec<u8>)
    ensures
        key@ == name.spec_bytes(),
{
    vstd::slice::slice_to_vec(name.as_bytes())
}

impl Info {
    /// The `info` dictionary of this description: its four fields under
    /// their keys, in the order of the keys.
    pub fn to_bencode(&self) -> (value: Bencode)
        ensures
            value@ == info_value(*self),
    {
        let mut hashes: Vec<u8> = Vec::new();
        let mut i: usize = 0;
        assert(self.pieces@.subrange(0, 0) =~= Seq::<PieceHash>::empty());
        while i < self.pieces.len()
            invariant
                i <= self.pieces@.len(),
                hashes@ == joined_hashes(self.pieces@.subrange(0, i as int)),
            decreases self.pieces@.len() - i,
        {
            assert(self.pieces@.subrange(0, i + 1).drop_last() =~= self.pieces@.subrange(
                0,
                i as int,
            ));
            hashes.extend_from_slice(self.pieces[i].0.as_slice());
            i += 1;
        }
        assert(self.pieces@.subrange(0, self.pieces@.len() as int) =~= self.pieces@);
        let mut entries: Vec<(Vec<u8>, Bencode)> = Vec::new();
        entries.push((key_of("length"), Bencode::Int(self.length)));
        entries.push(
            (key_of("name"), Bencode::Bytes(vstd::slice::slice_to_vec(self.name.as_str().as_bytes()))),
        );
        entries.push((key_of("piece length"), Bencode::Int(self.piece_length)));
        entries.push((key_of("pieces"), Bencode::Bytes(hashes)));
        let value = Bencode::Dict(entries);
        proof {
            crate::bencode::lemma_entries_of(entries@);
            assert(crate::bencode::entries_of(entries@) =~= info_value(*self)->Dict_0);
        }
        value
    }

    /// Reads an `info` dictionary.
    pub fn from(info_field: &Bencode) -> (r: Result<Info, InfoError>)
        ensures
            match info_fault(info_field@) {
                Some(e) => r == Err::<Info, InfoError>(e),
                None => r is Ok && info_matches(r->Ok_0, info_field@),
            },
    {
        let length: i64 = match info_field.get("length".as_bytes()) {
            Some(Bencode::Int(i)) => *i,
            _ => {
                return Err(InfoError::MissingLength);
            },
        };
        let name: String = match info_field.get("name".as_bytes()) {
            Some(Bencode::Bytes(bytes)) => match utf8_string(bytes.as_slice()) {
                Some(name) => name,
                None => {
                    return Err(InfoError::MissingName);
                },
            },
            _ => {
                return Err(InfoError::MissingName);
            },
        };
        let piece_length: i64 = match info_field.get("piece length".as_bytes()) {
            Some(Bencode::Int(i)) => *i,
            _ => {
                return Err(InfoError::MissingPieceLength);
            },
        };
        let pieces: Vec<PieceHash> = match info_field.get("pieces".as_bytes()) {
            Some(Bencode::Bytes(bytes)) => {
                if bytes.len() % 20 != 0 {
                    return Err(InfoError::MissingPieces);
                }
                split_hashes(bytes)
            },
            _ => {
                return Err(InfoError::MissingPieces);
            },
        };
        Ok(Info { length, name, piece_length, pieces })
    }
}

/// The texts that `items` are, if each is a byte string that is UTF-8.
fn read_texts(items: &Vec<Bencode>) -> (r: Option<Vec<String>>)
    ensures
        match r {
            Some(list) => texts_of(values_of(items@)) == Some(texts(list@)),
            None => texts_of(values_of(items@)) is None,
        },
{
    let ghost values = values_of(items@);
    proof {
        lemma_values_of(items@);
        assert(values.skip(0) =~= values);
    }
    let mut list: Vec<String> = Vec::new();
    let mut i: usize = 0;
    proof {
        assert(texts(list@) =~= Seq::<Seq<char>>::empty());
        match texts_of(values) {
            Some(all) => assert(Seq::<Seq<char>>::empty() + all =~= all),
            None => {},
        }
    }
    while i < items.len()
        invariant
            i <= items@.len(),
            values == values_of(items@),
            values.len() == items@.len(),
            forall|j: int| 0 <= j < items@.len() ==> #[trigger] values[j] == value_of(items@[j]),
            texts_of(values) == all_before(texts(list@), texts_of(values.skip(i as int))),
        decreases items@.len() - i,
    {
        assert(values.skip(i as int)[0] == values[i as int]);
        assert(values.skip(i as int).drop_first() =~= values.skip(i + 1));
        let text: String = match &items[i] {
            Bencode::Bytes(bytes) => match utf8_string(bytes.as_slice()) {
                Some(text) => text,
                None => {
                    return None;
                },
            },
            _ => {
                return None;
            },
        };
        proof {
            let found = texts(list@);
            assert(texts(list@.push(text)) =~= found.push(text@));
            match texts_of(values.skip(i + 1)) {
                Some(rest) => assert(found + (seq![text@] + rest) =~= found.push(text@) + rest),
                None => {},
            }
        }
        list.push(text);
        i += 1;
    }
    proof {
        assert(texts(list@) + Seq::<Seq<char>>::empty() =~= texts(list@));
    }
    Some(list)
}

/// The tiers that `items` are, if each is a list of texts.
fn read_tiers(items: &Vec<Bencode>) -> (r: Option<Vec<Vec<String>>>)
    ensures
        match r {
            Some(list) => tiers_of(values_of(items@)) == Some(tier_texts(list@)),
            None => tiers_of(values_of(items@)) is None,
        },
{
    let ghost values = values_of(items@);
    proof {
        lemma_values_of(items@);
        assert(values.skip(0) =~= values);
    }
    let mut list: Vec<Vec<String>> = Vec::new();
    let mut i: usize = 0;
    proof {
        assert(tier_texts(list@) =~= Seq::<Seq<Seq<char>>>::empty());
        match tiers_of(values) {
            Some(all) => assert(Seq::<Seq<Seq<char>>>::empty() + all =~= all),
            None => {},
        }
    }
    while i < items.len()
        invariant
            i <= items@.len(),
            values == values_of(items@),
            values.len() == items@.len(),
            forall|j: int| 0 <= j < items@.len() ==> #[trigger] values[j] == value_of(items@[j]),
            tiers_of(values) == all_before(tier_texts(list@), tiers_of(values.skip(i as int))),
        decreases items@.len() - i,
    {
        assert(values.skip(i as int)[0] == values[i as int]);
        assert(values.skip(i as int).drop_first() =~= values.skip(i + 1));
        let tier: Vec<String> = match &items[i] {
            Bencode::List(urls) => match read_texts(urls) {
                Some(tier) => tier,
                None => {
                    return None;
                },
            },
            _ => {
                return None;
            },
        };
        proof {
            let found = tier_texts(list@);
            assert(tier_texts(list@.push(tier)) =~= found.push(texts(tier@)));
            match tiers_of(values.skip(i + 1)) {
                Some(rest) => assert(found + (seq![texts(tier@)] + rest) =~= found.push(
                    texts(tier@),
                ) + rest),
                None => {},
            }
        }
        list.push(tier);
        i += 1;
    }
    proof {
        assert(tier_texts(list@) + Seq::<Seq<Seq<char>>>::empty() =~= tier_texts(list@));
    }
    Some(list)
}

/// The metainfo dictionary that says what `torrent` says of its tracker and its file.
pub open spec fn torrent_value(torrent: TorrentInfo) -> Value {
    Value::Dict(
        seq![
            ("announce".spec_bytes(), Value::Bytes(vstd::utf8::encode_utf8(torrent.announce@))),
            ("info".spec_bytes(), info_value(torrent.info)),
        ],
    )
}

impl TorrentInfo {
    /// The metainfo dictionary of this torrent: its announce URL and its
    /// `info` dictionary under their keys, in the order of the keys.
    pub fn to_bencode(&self) -> (value: Bencode)
        ensures
            value@ == torrent_value(*self),
    {
        let mut entries: Vec<(Vec<u8>, Bencode)> = Vec::new();
        entries.push(
            (
                key_of("announce"),
                Bencode::Bytes(vstd::slice::slice_to_vec(self.announce.as_str().as_bytes())),
            ),
        );
        entries.push((key_of("info"), self.info.to_bencode()));
        let value = Bencode::Dict(entries);
        proof {
            crate::bencode::lemma_entries_of(entries@);
            assert(crate::bencode::entries_of(entries@) =~= torrent_value(*self)->Dict_0);
        }
        value
    }

    /// The info hash of a torrent: the SHA-1 of its encoded `info` dictionary.
    pub fn calculate_info_hash(info_field: &Bencode) -> (hash: InfoHash)
        ensures
            hash.0@ == sha1_of(encoding(info_field@)),
    {
        let bencoded_info: Vec<u8> = info_field.encode();
        InfoHash(sha1_digest(bencoded_info.as_slice()))
    }

    /// Reads a metainfo dictionary.
    pub fn try_from(data: &Bencode) -> (r: Result<TorrentInfo, TorrentError>)
        ensures
            match torrent_fault(data@) {
                Some(e) => r is Err && r->Err_0 == e,
                None => r is Ok && torrent_matches(r->Ok_0, data@),
            },
    {
        let announce: String = match data.get("announce".as_bytes()) {
            Some(Bencode::Bytes(bytes)) => match utf8_string(bytes.as_slice()) {
                Some(url) => url,
                None => {
                    return Err(TorrentError::MissingAnnouce);
                },
            },
            _ => {
                return Err(TorrentError::MissingAnnouce);
            },
        };
        let info_field: &Bencode = match data.get("info".as_bytes()) {
            Some(field) => field,
            None => {
                return Err(TorrentError::MissingInfo);
            },
        };
        let info: Info = match Info::from(info_field) {
            Ok(info) => info,
            Err(e) => {
                return Err(TorrentError::MisingInfo(e));
            },
        };
        let announce_list: Option<Vec<Vec<String>>> = match data.get("announce-list".as_bytes()) {
            Some(Bencode::List(tiers)) => read_tiers(tiers),
            _ => None,
        };
        let info_hash: InfoHash = Self::calculate_info_hash(info_field);
        Ok(TorrentInfo { announce, announce_list, info, info_hash })
    }

    /// The description is usable: a positive piece length that a buffer can
    /// hold on every machine, a non-negative file length, and one hash for each piece.
    pub open spec fn wf(&self) -> bool {
        &&& 0 < self.info.piece_length <= MAX_PIECE_LENGTH
        &&& 0 <= self.info.length
        &&& self.info.pieces@.len() == piece_count(
            self.info.length as int,
            self.info.piece_length as int,
        )
        &&& self.info.pieces@.len() <= u32::MAX
    }

    /// Whether the description is usable.
    pub fn is_valid(&self) -> (ok: bool)
        ensures
            ok == self.wf(),
    {
        if self.info.piece_length <= 0 || self.info.piece_length > MAX_PIECE_LENGTH
            || self.info.length < 0 {
            return false;
        }
        let full: i64 = self.info.length / self.info.piece_length;
        assert(full * self.info.piece_length <= self.info.length && 0 <= full
            <= self.info.length) by (nonlinear_arith)
            requires
                full == self.info.length / self.info.piece_length,
                self.info.piece_length > 0,
                self.info.length >= 0,
        ;
        assert(self.info.length % self.info.piece_length != 0 ==> full < self.info.length)
            by (nonlinear_arith)
            requires
                full == self.info.length / self.info.piece_length,
                self.info.piece_length > 0,
                self.info.length >= 0,
        ;
        let count: i64 = if self.info.length % self.info.piece_length == 0 {
            full
        } else {
            full + 1
        };
        let have: usize = self.info.pieces.len();
        have <= 0xFFFF_FFFF && have as i64 == count
    }

    /// The announce URL.
    pub fn get_announce(&self) -> (url: &str)
        ensures
            url@ == self.announce@,
    {
        self.announce.as_str()
    }

    /// Number of pieces: as many as there are hashes, which in a usable
    /// description is the file length divided by the piece length, rounded up.
    pub fn get_total_pieces(&self) -> (n: usize)
        ensures
            n == self.info.pieces@.len(),
            self.wf() ==> n == piece_count(self.info.length as int, self.info.piece_length as int),
    {
        self.info.pieces.len()
    }

    /// Size in bytes of piece `index`.
    pub fn get_piece_len(&self, index: usize) -> (size: u32)
        requires
            self.wf(),
            index < self.info.pieces@.len(),
        ensures
            size == piece_size(
                self.info.length as int,
                self.info.piece_length as int,
                index as int,
            ),
            size > 0,
    {
        proof {
            lemma_piece_size(
                self.info.length as int,
                self.info.piece_length as int,
                index as int,
            );
        }
        let n: usize = self.info.pieces.len();
        if index < n - 1 {
            self.info.piece_length as u32
        } else {
            let before: i64 = (n - 1) as i64 * self.info.piece_length;
            (self.info.length - before) as u32
        }
    }
}

} // verus!

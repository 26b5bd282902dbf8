//! Bencoded values: integers, byte strings, lists and dictionaries.

use vstd::prelude::*;

verus! {

/// A bencoded value. The entries of a dictionary are kept in the order in
/// which they stand in the encoding.
#[derive(Debug, PartialEq, Eq)]
pub enum Bencode {
    Int(i64),
    Bytes(Vec<u8>),
    List(Vec<Bencode>),
    Dict(Vec<(Vec<u8>, Bencode)>),
}

/// Whether two byte strings are equal.
pub fn same_bytes(a: &[u8], b: &[u8]) -> (same: bool)
    ensures
        same == (a@ == b@),
{
    if a.len() != b.len() {
        return false;
    }
    let mut i: usize = 0;
    while i < a.len()
        invariant
            i <= a@.len(),
            a@.len() == b@.len(),
            forall|j: int| 0 <= j < i ==> a@[j] == b@[j],
        decreases a@.len() - i,
    {
        if a[i] != b[i] {
            return false;
        }
        i += 1;
    }
    assert(a@ =~= b@);
    true
}

/// Deepest nesting of lists and dictionaries that is read.
pub const MAX_DEPTH: usize = 64;

/// A bencoded value as a mathematical value.
pub enum Value {
    Int(i64),
    Bytes(Seq<u8>),
    List(Seq<Value>),
    Dict(Seq<(Seq<u8>, Value)>),
}

/// Why bytes are no bencoded value.
#[derive(Debug, Clone, Copy, PartialEq, Eq, Structural)]
pub enum BencodeError {
    /// The bytes end in the middle of a value.
    UnexpectedEnd,
    /// A value starts with a byte that starts no value.
    InvalidByte,
    /// An integer is empty, has a leading zero, is `-0`, or lacks its end.
    InvalidInteger,
    /// An integer does not fit 64 bits.
    IntegerOverflow,
    /// The length of a byte string has a leading zero or lacks its colon.
    InvalidLength,
    /// The key of a dictionary is no byte string.
    InvalidKey,
    /// The keys of a dictionary do not rise strictly.
    UnsortedKeys,
    /// Lists and dictionaries are nested too deeply.
    TooDeep,
    /// Bytes follow the value.
    TrailingData,
}

/// The mathematical value of `b`.
pub open spec fn value_of(b: Bencode) -> Value
    decreases b,
{
    match b {
        Bencode::Int(i) => Value::Int(i),
        Bencode::Bytes(bytes) => Value::Bytes(bytes@),
        Bencode::List(items) => Value::List(values_of(items@)),
        Bencode::Dict(entries) => Value::Dict(entries_of(entries@)),
    }
}

/// The mathematical values of `items`.
pub open spec fn values_of(items: Seq<Bencode>) -> Seq<Value>
    decreases items,
{
    if items.len() == 0 {
        Seq::empty()
    } else {
        values_of(items.drop_last()).push(value_of(items.last()))
    }
}

/// The mathematical values of `entries`.
pub open spec fn entries_of(entries: Seq<(Vec<u8>, Bencode)>) -> Seq<(Seq<u8>, Value)>
    decreases entries,
{
    if entries.len() == 0 {
        Seq::empty()
    } else {
        entries_of(entries.drop_last()).push((entries.last().0@, value_of(entries.last().1)))
    }
}

impl View for Bencode {
    type V = Value;

    open spec fn view(&self) -> Value {
        value_of(*self)
    }
}

/// The value of the first entry of `entries` whose key is `key`.
pub open spec fn lookup(entries: Seq<(Seq<u8>, Value)>, key: Seq<u8>) -> Option<Value>
    decreases entries.len(),
{
    if entries.len() == 0 {
        None
    } else if entries[0].0 == key {
        Some(entries[0].1)
    } else {
        lookup(entries.drop_first(), key)
    }
}

impl Value {
    /// The value under `key`, if this is a dictionary that has the key.
    pub open spec fn get(self, key: Seq<u8>) -> Option<Value> {
        match self {
            Value::Dict(entries) => lookup(entries, key),
            _ => None,
        }
    }
}

impl Bencode {
    /// The value under `key`, if this is a dictionary that has the key.
    pub fn get(&self, key: &[u8]) -> (r: Option<&Bencode>)
        ensures
            match r {
                Some(v) => self@.get(key@) == Some(v@),
                None => self@.get(key@) is None,
            },
    {
        match self {
            Bencode::Dict(entries) => {
                let ghost all = entries_of(entries@);
                proof {
                    lemma_entries_of(entries@);
                    assert(all.skip(0) =~= all);
                }
                let mut i: usize = 0;
                while i < entries.len()
                    invariant
                        i <= entries@.len(),
                        all == entries_of(entries@),
                        all.len() == entries@.len(),
                        forall|j: int|
                            0 <= j < entries@.len() ==> #[trigger] all[j] == (
                                entries@[j].0@,
                                value_of(entries@[j].1),
                            ),
                        self@.get(key@) == lookup(all.skip(i as int), key@),
                    decreases entries@.len() - i,
                {
                    assert(all.skip(i as int).drop_first() =~= all.skip(i + 1));
                    assert(all.skip(i as int)[0] == all[i as int]);
                    if same_bytes(entries[i].0.as_slice(), key) {
                        return Some(&entries[i].1);
                    }
                    i += 1;
                }
                None
            },
            _ => None,
        }
    }
}

/// Whether `b` is the code of a decimal digit.
pub open spec fn is_digit(b: u8) -> bool {
    48 <= b <= 57
}

/// Where the run of digits that starts at `pos` ends.
pub open spec fn digits_end(data: Seq<u8>, pos: int) -> int
    decreases data.len() - pos,
{
    if 0 <= pos < data.len() && is_digit(data[pos]) {
        digits_end(data, pos + 1)
    } else {
        pos
    }
}

/// The number that the digits of `data` from `pos` up to `end` spell.
pub open spec fn digits_value(data: Seq<u8>, pos: int, end: int) -> nat
    decreases end - pos,
{
    if end <= pos {
        0
    } else {
        digits_value(data, pos, end - 1) * 10 + (data[end - 1] - 48) as nat
    }
}

/// Whether the digits from `pos` up to `end` are a number as it must be
/// written: at least one digit, and no zero in front of another digit.
pub open spec fn plain_number(data: Seq<u8>, pos: int, end: int) -> bool {
    pos < end && (data[pos] == 48 ==> end == pos + 1)
}

/// Whether `a` comes before `b` in the order of byte strings.
pub open spec fn bytes_lt(a: Seq<u8>, b: Seq<u8>) -> bool
    decreases a.len(),
{
    if b.len() == 0 {
        false
    } else if a.len() == 0 {
        true
    } else if a[0] != b[0] {
        a[0] < b[0]
    } else {
        bytes_lt(a.drop_first(), b.drop_first())
    }
}

/// A value and the position behind it, or an error.
pub type Parsed<T> = Result<(T, int), BencodeError>;

/// The integer that starts at `pos` with `i`.
pub open spec fn parse_int(data: Seq<u8>, pos: int) -> Parsed<i64> {
    let negative = pos + 1 < data.len() && data[pos + 1] == 45;
    let start = if negative {
        pos + 2
    } else {
        pos + 1
    };
    let end = digits_end(data, start);
    let value = digits_value(data, start, end);
    if !plain_number(data, start, end) || end >= data.len() || data[end] != 101 {
        Err(BencodeError::InvalidInteger)
    } else if negative {
        if value == 0 {
            Err(BencodeError::InvalidInteger)
        } else if value > 0x8000_0000_0000_0000 {
            Err(BencodeError::IntegerOverflow)
        } else {
            Ok(((-value) as i64, end + 1))
        }
    } else if value > 0x7FFF_FFFF_FFFF_FFFF {
        Err(BencodeError::IntegerOverflow)
    } else {
        Ok((value as i64, end + 1))
    }
}

/// The byte string that starts at `pos` with its length.
pub open spec fn parse_bytes(data: Seq<u8>, pos: int) -> Parsed<Seq<u8>> {
    let end = digits_end(data, pos);
    let length = digits_value(data, pos, end);
    if !plain_number(data, pos, end) || end >= data.len() || data[end] != 58 {
        Err(BencodeError::InvalidLength)
    } else if end + 1 + length > data.len() {
        Err(BencodeError::UnexpectedEnd)
    } else {
        Ok((data.subrange(end + 1, end + 1 + length), end + 1 + length))
    }
}

/// `first` in front of the items of `rest`.
pub open spec fn item_before(first: Value, rest: Parsed<Seq<Value>>) -> Parsed<Seq<Value>> {
    match rest {
        Ok((items, end)) => Ok((seq![first] + items, end)),
        Err(e) => Err(e),
    }
}

/// `first` in front of the entries of `rest`.
pub open spec fn entry_before(
    first: (Seq<u8>, Value),
    rest: Parsed<Seq<(Seq<u8>, Value)>>,
) -> Parsed<Seq<(Seq<u8>, Value)>> {
    match rest {
        Ok((entries, end)) => Ok((seq![first] + entries, end)),
        Err(e) => Err(e),
    }
}

/// The value that starts at `pos`, nested no deeper than `depth`.
pub open spec fn parse_value(data: Seq<u8>, pos: int, depth: nat) -> Parsed<Value>
    decreases depth, data.len() - pos, 0nat,
{
    if pos < 0 || pos >= data.len() {
        Err(BencodeError::UnexpectedEnd)
    } else if data[pos] == 105 {
        match parse_int(data, pos) {
            Ok((i, next)) => Ok((Value::Int(i), next)),
            Err(e) => Err(e),
        }
    } else if is_digit(data[pos]) {
        match parse_bytes(data, pos) {
            Ok((bytes, next)) => Ok((Value::Bytes(bytes), next)),
            Err(e) => Err(e),
        }
    } else if data[pos] == 108 {
        if depth == 0 {
            Err(BencodeError::TooDeep)
        } else {
            match parse_items(data, pos + 1, (depth - 1) as nat) {
                Ok((items, next)) => Ok((Value::List(items), next)),
                Err(e) => Err(e),
            }
        }
    } else if data[pos] == 100 {
        if depth == 0 {
            Err(BencodeError::TooDeep)
        } else {
            match parse_entries(data, pos + 1, (depth - 1) as nat, None) {
                Ok((entries, next)) => Ok((Value::Dict(entries), next)),
                Err(e) => Err(e),
            }
        }
    } else {
        Err(BencodeError::InvalidByte)
    }
}

/// The items of a list from `pos` to the list's end.
pub open spec fn parse_items(data: Seq<u8>, pos: int, depth: nat) -> Parsed<Seq<Value>>
    decreases depth, data.len() - pos, 1nat,
{
    if pos < 0 || pos >= data.len() {
        Err(BencodeError::UnexpectedEnd)
    } else if data[pos] == 101 {
        Ok((Seq::empty(), pos + 1))
    } else {
        match parse_value(data, pos, depth) {
            Err(e) => Err(e),
            Ok((item, next)) => if pos < next <= data.len() {
                item_before(item, parse_items(data, next, depth))
            } else {
                Err(BencodeError::UnexpectedEnd)
            },
        }
    }
}

/// The entries of a dictionary from `pos` to the dictionary's end, `last`
/// being the key of the entry before `pos`.
pub open spec fn parse_entries(
    data: Seq<u8>,
    pos: int,
    depth: nat,
    last: Option<Seq<u8>>,
) -> Parsed<Seq<(Seq<u8>, Value)>>
    decreases depth, data.len() - pos, 1nat,
{
    if pos < 0 || pos >= data.len() {
        Err(BencodeError::UnexpectedEnd)
    } else if data[pos] == 101 {
        Ok((Seq::empty(), pos + 1))
    } else if !is_digit(data[pos]) {
        Err(BencodeError::InvalidKey)
    } else {
        match parse_bytes(data, pos) {
            Err(e) => Err(e),
            Ok((key, at)) => if last is Some && !bytes_lt(last->0, key) {
                Err(BencodeError::UnsortedKeys)
            } else if !(pos < at <= data.len()) {
                Err(BencodeError::UnexpectedEnd)
            } else {
                match parse_value(data, at, depth) {
                    Err(e) => Err(e),
                    Ok((value, next)) => if at < next <= data.len() {
                        entry_before((key, value), parse_entries(data, next, depth, Some(key)))
                    } else {
                        Err(BencodeError::UnexpectedEnd)
                    },
                }
            },
        }
    }
}

/// What `data` is as a whole: the value it encodes, or why it encodes none.
pub open spec fn decoding(data: Seq<u8>) -> Result<Value, BencodeError> {
    match parse_value(data, 0, MAX_DEPTH as nat) {
        Err(e) => Err(e),
        Ok((value, next)) => if next == data.len() {
            Ok(value)
        } else {
            Err(BencodeError::TrailingData)
        },
    }
}

/// `found` in front of the items of `rest`.
pub open spec fn items_after(found: Seq<Value>, rest: Parsed<Seq<Value>>) -> Parsed<Seq<Value>> {
    match rest {
        Ok((items, end)) => Ok((found + items, end)),
        Err(e) => Err(e),
    }
}

/// `found` in front of the entries of `rest`.
pub open spec fn entries_after(
    found: Seq<(Seq<u8>, Value)>,
    rest: Parsed<Seq<(Seq<u8>, Value)>>,
) -> Parsed<Seq<(Seq<u8>, Value)>> {
    match rest {
        Ok((entries, end)) => Ok((found + entries, end)),
        Err(e) => Err(e),
    }
}

/// Reads the run of digits from `pos`: where it ends, and the number it
/// spells unless that is beyond 64 bits.
pub(crate) fn scan_digits(data: &[u8], pos: usize) -> (r: (usize, Option<u64>))
    requires
        pos <= data@.len(),
    ensures
        r.0 == digits_end(data@, pos as int),
        pos <= r.0 <= data@.len(),
        match r.1 {
            Some(v) => v == digits_value(data@, pos as int, r.0 as int),
            None => digits_value(data@, pos as int, r.0 as int) > u64::MAX,
        },
{
    let mut cur: usize = pos;
    let mut value: Option<u64> = Some(0);
    while cur < data.len() && data[cur] >= 48 && data[cur] <= 57
        invariant
            pos <= cur <= data@.len(),
            digits_end(data@, pos as int) == digits_end(data@, cur as int),
            match value {
                Some(v) => v == digits_value(data@, pos as int, cur as int),
                None => digits_value(data@, pos as int, cur as int) > u64::MAX,
            },
        decreases data@.len() - cur,
    {
        let digit: u64 = (data[cur] - 48) as u64;
        value = match value {
            Some(v) => if v > (u64::MAX - digit) / 10 {
                None
            } else {
                Some(v * 10 + digit)
            },
            None => None,
        };
        cur += 1;
    }
    (cur, value)
}

/// Reads the integer that starts at `pos` with `i`.
fn read_int(data: &[u8], pos: usize) -> (r: Result<(i64, usize), BencodeError>)
    requires
        pos < data@.len(),
    ensures
        match parse_int(data@, pos as int) {
            Ok((i, next)) => r == Ok::<(i64, usize), BencodeError>((i, next as usize)) && pos < next
                <= data@.len(),
            Err(e) => r == Err::<(i64, usize), BencodeError>(e),
        },
{
    let n: usize = data.len();
    let negative: bool = pos + 1 < n && data[pos + 1] == 45;
    let start: usize = if negative {
        pos + 2
    } else {
        pos + 1
    };
    let (end, value) = scan_digits(data, start);
    if end == start || (data[start] == 48 && end != start + 1) || end >= data.len() || data[end]
        != 101 {
        return Err(BencodeError::InvalidInteger);
    }
    match value {
        None => Err(BencodeError::IntegerOverflow),
        Some(v) => {
            if negative {
                if v == 0 {
                    Err(BencodeError::InvalidInteger)
                } else if v > 0x8000_0000_0000_0000 {
                    Err(BencodeError::IntegerOverflow)
                } else if v == 0x8000_0000_0000_0000 {
                    Ok((i64::MIN, end + 1))
                } else {
                    Ok((-(v as i64), end + 1))
                }
            } else if v > 0x7FFF_FFFF_FFFF_FFFF {
                Err(BencodeError::IntegerOverflow)
            } else {
                Ok((v as i64, end + 1))
            }
        },
    }
}

/// Reads the byte string that starts at `pos` with its length.
fn read_bytes(data: &[u8], pos: usize) -> (r: Result<(Vec<u8>, usize), BencodeError>)
    requires
        pos < data@.len(),
    ensures
        match parse_bytes(data@, pos as int) {
            Ok((bytes, next)) => r is Ok && r->Ok_0.0@ == bytes && r->Ok_0.1 == next && pos < next
                <= data@.len(),
            Err(e) => r is Err && r->Err_0 == e,
        },
{
    let (end, length) = scan_digits(data, pos);
    if end == pos || (data[pos] == 48 && end != pos + 1) || end >= data.len() || data[end] != 58 {
        return Err(BencodeError::InvalidLength);
    }
    let room: usize = data.len() - end - 1;
    match length {
        None => Err(BencodeError::UnexpectedEnd),
        Some(n) => {
            if n > room as u64 {
                return Err(BencodeError::UnexpectedEnd);
            }
            let stop: usize = end + 1 + n as usize;
            let mut bytes: Vec<u8> = Vec::new();
            bytes.extend_from_slice(vstd::slice::slice_subrange(data, end + 1, stop));
            Ok((bytes, stop))
        },
    }
}

/// Whether `a` comes before `b` in the order of byte strings.
pub fn lt_bytes(a: &[u8], b: &[u8]) -> (lt: bool)
    ensures
        lt == bytes_lt(a@, b@),
{
    let mut i: usize = 0;
    assert(a@.skip(0) =~= a@ && b@.skip(0) =~= b@);
    while i < a.len() && i < b.len()
        invariant
            i <= a@.len(),
            i <= b@.len(),
            bytes_lt(a@, b@) == bytes_lt(a@.skip(i as int), b@.skip(i as int)),
        decreases a@.len() - i,
    {
        assert(a@.skip(i as int)[0] == a@[i as int] && b@.skip(i as int)[0] == b@[i as int]);
        assert(a@.skip(i as int).drop_first() =~= a@.skip(i + 1));
        assert(b@.skip(i as int).drop_first() =~= b@.skip(i + 1));
        if a[i] != b[i] {
            return a[i] < b[i];
        }
        i += 1;
    }
    i < b.len()
}

/// Reads the value that starts at `pos`, nested no deeper than `depth`.
fn read_value(data: &[u8], pos: usize, depth: usize) -> (r: Result<(Bencode, usize), BencodeError>)
    ensures
        match parse_value(data@, pos as int, depth as nat) {
            Ok((value, next)) => r is Ok && r->Ok_0.0@ == value && r->Ok_0.1 == next && pos < next
                <= data@.len(),
            Err(e) => r is Err && r->Err_0 == e,
        },
    decreases depth, data@.len() - pos, 0nat,
{
    if pos >= data.len() {
        return Err(BencodeError::UnexpectedEnd);
    }
    let first: u8 = data[pos];
    if first == 105 {
        match read_int(data, pos) {
            Ok((i, next)) => Ok((Bencode::Int(i), next)),
            Err(e) => Err(e),
        }
    } else if first >= 48 && first <= 57 {
        match read_bytes(data, pos) {
            Ok((bytes, next)) => Ok((Bencode::Bytes(bytes), next)),
            Err(e) => Err(e),
        }
    } else if first == 108 {
        if depth == 0 {
            return Err(BencodeError::TooDeep);
        }
        match read_items(data, pos + 1, depth - 1) {
            Ok((items, next)) => Ok((Bencode::List(items), next)),
            Err(e) => Err(e),
        }
    } else if first == 100 {
        if depth == 0 {
            return Err(BencodeError::TooDeep);
        }
        match read_entries(data, pos + 1, depth - 1) {
            Ok((entries, next)) => Ok((Bencode::Dict(entries), next)),
            Err(e) => Err(e),
        }
    } else {
        Err(BencodeError::InvalidByte)
    }
}

/// Reads the items of a list from `pos` to the list's end.
fn read_items(data: &[u8], pos: usize, depth: usize) -> (r: Result<
    (Vec<Bencode>, usize),
    BencodeError,
>)
    requires
        pos <= data@.len(),
    ensures
        match parse_items(data@, pos as int, depth as nat) {
            Ok((items, next)) => r is Ok && values_of(r->Ok_0.0@) == items && r->Ok_0.1 == next
                && pos < next <= data@.len(),
            Err(e) => r is Err && r->Err_0 == e,
        },
    decreases depth, data@.len() - pos, 1nat,
{
    let mut items: Vec<Bencode> = Vec::new();
    let mut cur: usize = pos;
    proof {
        match parse_items(data@, pos as int, depth as nat) {
            Ok((all, end)) => assert(Seq::<Value>::empty() + all =~= all),
            Err(_) => {},
        }
    }
    loop
        invariant
            pos <= cur <= data@.len(),
            parse_items(data@, pos as int, depth as nat) == items_after(
                values_of(items@),
                parse_items(data@, cur as int, depth as nat),
            ),
        decreases data@.len() - cur,
    {
        if cur >= data.len() {
            return Err(BencodeError::UnexpectedEnd);
        }
        if data[cur] == 101 {
            assert(values_of(items@) + Seq::<Value>::empty() =~= values_of(items@));
            return Ok((items, cur + 1));
        }
        match read_value(data, cur, depth) {
            Err(e) => {
                return Err(e);
            },
            Ok((item, next)) => {
                proof {
                    let found = values_of(items@);
                    assert(items@.push(item).drop_last() =~= items@);
                    match parse_items(data@, next as int, depth as nat) {
                        Ok((rest, end)) => {
                            assert(found + (seq![item@] + rest) =~= found.push(item@) + rest);
                        },
                        Err(_) => {},
                    }
                }
                items.push(item);
                cur = next;
            },
        }
    }
}

/// Reads the entries of a dictionary from `pos` to the dictionary's end.
fn read_entries(data: &[u8], pos: usize, depth: usize) -> (r: Result<
    (Vec<(Vec<u8>, Bencode)>, usize),
    BencodeError,
>)
    requires
        pos <= data@.len(),
    ensures
        match parse_entries(data@, pos as int, depth as nat, None) {
            Ok((entries, next)) => r is Ok && entries_of(r->Ok_0.0@) == entries && r->Ok_0.1
                == next && pos < next <= data@.len(),
            Err(e) => r is Err && r->Err_0 == e,
        },
    decreases depth, data@.len() - pos, 1nat,
{
    let mut entries: Vec<(Vec<u8>, Bencode)> = Vec::new();
    let mut cur: usize = pos;
    proof {
        match parse_entries(data@, pos as int, depth as nat, None) {
            Ok((all, end)) => assert(Seq::<(Seq<u8>, Value)>::empty() + all =~= all),
            Err(_) => {},
        }
    }
    loop
        invariant
            pos <= cur <= data@.len(),
            parse_entries(data@, pos as int, depth as nat, None) == entries_after(
                entries_of(entries@),
                parse_entries(
                    data@,
                    cur as int,
                    depth as nat,
                    if entries@.len() == 0 {
                        None
                    } else {
                        Some(entries@.last().0@)
                    },
                ),
            ),
        decreases data@.len() - cur,
    {
        if cur >= data.len() {
            return Err(BencodeError::UnexpectedEnd);
        }
        if data[cur] == 101 {
            assert(entries_of(entries@) + Seq::<(Seq<u8>, Value)>::empty() =~= entries_of(
                entries@,
            ));
            return Ok((entries, cur + 1));
        }
        if data[cur] < 48 || data[cur] > 57 {
            return Err(BencodeError::InvalidKey);
        }
        let (key, at) = match read_bytes(data, cur) {
            Ok(found) => found,
            Err(e) => {
                return Err(e);
            },
        };
        if entries.len() > 0 && !lt_bytes(entries[entries.len() - 1].0.as_slice(), key.as_slice()) {
            return Err(BencodeError::UnsortedKeys);
        }
        match read_value(data, at, depth) {
            Err(e) => {
                return Err(e);
            },
            Ok((value, next)) => {
                proof {
                    let found = entries_of(entries@);
                    let entry = (key@, value@);
                    assert(entries@.push((key, value)).drop_last() =~= entries@);
                    match parse_entries(data@, next as int, depth as nat, Some(key@)) {
                        Ok((rest, end)) => {
                            assert(found + (seq![entry] + rest) =~= found.push(entry) + rest);
                        },
                        Err(_) => {},
                    }
                }
                entries.push((key, value));
                cur = next;
            },
        }
    }
}

impl Bencode {
    /// Reads `data` as one bencoded value.
    ///
    /// The value must be written as the encoding writes it, numbers without
    /// needless zeros and the keys of a dictionary in strictly rising order,
    /// it must be nested no deeper than `MAX_DEPTH`, and nothing may follow it.
    pub fn decode(data: &[u8]) -> (r: Result<Bencode, BencodeError>)
        ensures
            match decoding(data@) {
                Ok(value) => r is Ok && r->Ok_0@ == value,
                Err(e) => r is Err && r->Err_0 == e,
            },
    {
        match read_value(data, 0, MAX_DEPTH) {
            Err(e) => Err(e),
            Ok((value, next)) => {
                if next == data.len() {
                    Ok(value)
                } else {
                    Err(BencodeError::TrailingData)
                }
            },
        }
    }
}

/// The decimal digits of `n`, as character codes.
pub open spec fn decimal_bytes(n: nat) -> Seq<u8>
    decreases n,
{
    if n < 10 {
        seq![(48 + n) as u8]
    } else {
        decimal_bytes(n / 10).push((48 + n % 10) as u8)
    }
}

/// Appends the decimal digits of `n`.
pub fn put_decimal(out: &mut Vec<u8>, n: u64)
    ensures
        final(out)@ == old(out)@ + decimal_bytes(n as nat),
    decreases n,
{
    if n >= 10 {
        put_decimal(out, n / 10);
    }
    out.push(48 + (n % 10) as u8);
    assert(out@ =~= old(out)@ + decimal_bytes(n as nat));
}

/// The digits of `i`, behind a minus sign if it is negative.
pub open spec fn int_text(i: i64) -> Seq<u8> {
    if i < 0 {
        seq![45u8] + decimal_bytes((-i) as nat)
    } else {
        decimal_bytes(i as nat)
    }
}

/// The bytes that encode the byte string `bytes`: its length, a colon, and the bytes.
pub open spec fn bytes_encoding(bytes: Seq<u8>) -> Seq<u8> {
    decimal_bytes(bytes.len()) + seq![58u8] + bytes
}

/// The bytes that encode `v`.
pub open spec fn encoding(v: Value) -> Seq<u8>
    decreases v,
{
    match v {
        Value::Int(i) => seq![105u8] + int_text(i) + seq![101u8],
        Value::Bytes(bytes) => bytes_encoding(bytes),
        Value::List(items) => seq![108u8] + encoding_items(items) + seq![101u8],
        Value::Dict(entries) => seq![100u8] + encoding_entries(entries) + seq![101u8],
    }
}

/// The encodings of `items`, one after the other.
pub open spec fn encoding_items(items: Seq<Value>) -> Seq<u8>
    decreases items,
{
    if items.len() == 0 {
        Seq::empty()
    } else {
        encoding(items[0]) + encoding_items(items.drop_first())
    }
}

/// The encodings of `entries`, one after the other: each key as a byte
/// string, then its value.
pub open spec fn encoding_entries(entries: Seq<(Seq<u8>, Value)>) -> Seq<u8>
    decreases entries,
{
    if entries.len() == 0 {
        Seq::empty()
    } else {
        bytes_encoding(entries[0].0) + encoding(entries[0].1) + encoding_entries(
            entries.drop_first(),
        )
    }
}

/// The values of a list are the values of its items, one for one.
pub proof fn lemma_values_of(items: Seq<Bencode>)
    ensures
        values_of(items).len() == items.len(),
        forall|i: int| 0 <= i < items.len() ==> #[trigger] values_of(items)[i] == value_of(items[i]),
    decreases items.len(),
{
    if items.len() > 0 {
        lemma_values_of(items.drop_last());
    }
}

/// The entries of a dictionary are its keys with the values of its values, one for one.
pub proof fn lemma_entries_of(entries: Seq<(Vec<u8>, Bencode)>)
    ensures
        entries_of(entries).len() == entries.len(),
        forall|i: int|
            0 <= i < entries.len() ==> #[trigger] entries_of(entries)[i] == (
                entries[i].0@,
                value_of(entries[i].1),
            ),
    decreases entries.len(),
{
    if entries.len() > 0 {
        lemma_entries_of(entries.drop_last());
    }
}

/// Number of values that `v` is made of, itself included.
pub open spec fn weight(v: Value) -> nat
    decreases v,
{
    match v {
        Value::Int(_) => 1,
        Value::Bytes(_) => 1,
        Value::List(items) => 1 + weight_items(items),
        Value::Dict(entries) => 1 + weight_entries(entries),
    }
}

/// Number of values that `items` are made of.
pub open spec fn weight_items(items: Seq<Value>) -> nat
    decreases items,
{
    if items.len() == 0 {
        0
    } else {
        weight(items[0]) + weight_items(items.drop_first())
    }
}

/// Number of values that the values of `entries` are made of.
pub open spec fn weight_entries(entries: Seq<(Seq<u8>, Value)>) -> nat
    decreases entries,
{
    if entries.len() == 0 {
        0
    } else {
        weight(entries[0].1) + weight_entries(entries.drop_first())
    }
}

/// An item weighs no more than the items together.
proof fn lemma_item_weight(items: Seq<Value>, i: int)
    requires
        0 <= i < items.len(),
    ensures
        weight(items[i]) <= weight_items(items),
    decreases items.len(),
{
    if i > 0 {
        lemma_item_weight(items.drop_first(), i - 1);
    }
}

/// The value of an entry weighs no more than the entries together.
proof fn lemma_entry_weight(entries: Seq<(Seq<u8>, Value)>, i: int)
    requires
        0 <= i < entries.len(),
    ensures
        weight(entries[i].1) <= weight_entries(entries),
    decreases entries.len(),
{
    if i > 0 {
        lemma_entry_weight(entries.drop_first(), i - 1);
    }
}

/// Appends the encoding of the integer `i`.
fn write_int(out: &mut Vec<u8>, i: i64)
    ensures
        final(out)@ == old(out)@ + encoding(Value::Int(i)),
{
    out.push(105u8);
    if i < 0 {
        out.push(45u8);
        let magnitude: u64 = (-(i + 1)) as u64 + 1;
        put_decimal(out, magnitude);
    } else {
        put_decimal(out, i as u64);
    }
    out.push(101u8);
    assert(out@ =~= old(out)@ + encoding(Value::Int(i)));
}

/// Appends the encoding of the byte string `bytes`.
fn write_bytes(out: &mut Vec<u8>, bytes: &[u8])
    ensures
        final(out)@ == old(out)@ + bytes_encoding(bytes@),
{
    put_decimal(out, bytes.len() as u64);
    out.push(58u8);
    out.extend_from_slice(bytes);
    assert(out@ =~= old(out)@ + bytes_encoding(bytes@));
}

/// Appends the encoding of `b`.
fn write_value(out: &mut Vec<u8>, b: &Bencode)
    ensures
        final(out)@ == old(out)@ + encoding(b@),
    decreases weight(b@),
{
    match b {
        Bencode::Int(i) => write_int(out, *i),
        Bencode::Bytes(bytes) => write_bytes(out, bytes.as_slice()),
        Bencode::List(items) => {
            out.push(108u8);
            let ghost all = values_of(items@);
            let ghost mut done: Seq<u8> = Seq::empty();
            proof {
                lemma_values_of(items@);
                assert(all.skip(0) =~= all);
            }
            let mut i: usize = 0;
            while i < items.len()
                invariant
                    i <= items@.len(),
                    *b == Bencode::List(*items),
                    all == values_of(items@),
                    all.len() == items@.len(),
                    forall|j: int|
                        0 <= j < items@.len() ==> #[trigger] all[j] == value_of(items@[j]),
                    out@ == old(out)@.push(108u8) + done,
                    encoding_items(all) == done + encoding_items(all.skip(i as int)),
                decreases items@.len() - i,
            {
                proof {
                    assert(all.skip(i as int)[0] == all[i as int]);
                    assert(all.skip(i as int).drop_first() =~= all.skip(i + 1));
                }
                let ghost before = done;
                proof {
                    lemma_item_weight(all, i as int);
                }
                write_value(out, &items[i]);
                proof {
                    done = before + encoding(all[i as int]);
                    assert(out@ =~= old(out)@.push(108u8) + done);
                    assert(done + encoding_items(all.skip(i + 1)) =~= before + (encoding(
                        all[i as int],
                    ) + encoding_items(all.skip(i + 1))));
                }
                i += 1;
            }
            out.push(101u8);
            proof {
                assert(encoding_items(all.skip(items@.len() as int)) =~= Seq::<u8>::empty());
                assert(done =~= encoding_items(all));
                assert(out@ =~= old(out)@ + encoding(b@));
            }
        },
        Bencode::Dict(entries) => {
            out.push(100u8);
            let ghost all = entries_of(entries@);
            let ghost mut done: Seq<u8> = Seq::empty();
            proof {
                lemma_entries_of(entries@);
                assert(all.skip(0) =~= all);
            }
            let mut i: usize = 0;
            while i < entries.len()
                invariant
                    i <= entries@.len(),
                    *b == Bencode::Dict(*entries),
                    all == entries_of(entries@),
                    all.len() == entries@.len(),
                    forall|j: int|
                        0 <= j < entries@.len() ==> #[trigger] all[j] == (
                            entries@[j].0@,
                            value_of(entries@[j].1),
                        ),
                    out@ == old(out)@.push(100u8) + done,
                    encoding_entries(all) == done + encoding_entries(all.skip(i as int)),
                decreases entries@.len() - i,
            {
                proof {
                    assert(all.skip(i as int)[0] == all[i as int]);
                    assert(all.skip(i as int).drop_first() =~= all.skip(i + 1));
                }
                let ghost before = done;
                write_bytes(out, entries[i].0.as_slice());
                proof {
                    lemma_entry_weight(all, i as int);
                }
                write_value(out, &entries[i].1);
                proof {
                    done = before + bytes_encoding(all[i as int].0) + encoding(all[i as int].1);
                    assert(out@ =~= old(out)@.push(100u8) + done);
                    assert(done + encoding_entries(all.skip(i + 1)) =~= before + (bytes_encoding(
                        all[i as int].0,
                    ) + encoding(all[i as int].1) + encoding_entries(all.skip(i + 1))));
                }
                i += 1;
            }
            out.push(101u8);
            proof {
                assert(encoding_entries(all.skip(entries@.len() as int)) =~= Seq::<u8>::empty());
                assert(done =~= encoding_entries(all));
                assert(out@ =~= old(out)@ + encoding(b@));
            }
        },
    }
}

impl Bencode {
    /// The bytes that encode this value.
    pub fn encode(&self) -> (out: Vec<u8>)
        ensures
            out@ == encoding(self@),
    {
        let mut out: Vec<u8> = Vec::new();
        write_value(&mut out, self);
        out
    }
}

} // verus!

//! What holds of the bencode grammar: what is read is what was written, and
//! what is written is read back.

use crate::bencode::{
    bytes_encoding, bytes_lt, decimal_bytes, decoding, digits_end, digits_value, encoding,
    encoding_entries, encoding_items, entry_before, int_text, is_digit, item_before, parse_bytes,
    parse_entries, parse_int, parse_items, parse_value, plain_number, BencodeError, Value,
    MAX_DEPTH,
};
use vstd::prelude::*;

verus! {

/// Whether the bytes of `data` from `pos` up to `end` are all digits.
pub open spec fn all_digits(data: Seq<u8>, pos: int, end: int) -> bool {
    forall|k: int| pos <= k < end ==> is_digit(#[trigger] data[k])
}

/// Whether `v` is nested no deeper than `depth`.
pub open spec fn fits_depth(v: Value, depth: nat) -> bool
    decreases v,
{
    match v {
        Value::Int(_) => true,
        Value::Bytes(_) => true,
        Value::List(items) => depth > 0 && items_fit_depth(items, (depth - 1) as nat),
        Value::Dict(entries) => depth > 0 && entries_fit_depth(entries, (depth - 1) as nat),
    }
}

/// Whether every item of `items` is nested no deeper than `depth`.
pub open spec fn items_fit_depth(items: Seq<Value>, depth: nat) -> bool
    decreases items,
{
    items.len() == 0 || (fits_depth(items[0], depth) && items_fit_depth(
        items.drop_first(),
        depth,
    ))
}

/// Whether every value of `entries` is nested no deeper than `depth`.
pub open spec fn entries_fit_depth(entries: Seq<(Seq<u8>, Value)>, depth: nat) -> bool
    decreases entries,
{
    entries.len() == 0 || (fits_depth(entries[0].1, depth) && entries_fit_depth(
        entries.drop_first(),
        depth,
    ))
}

/// Whether the keys of every dictionary in `v` rise strictly.
pub open spec fn canonical(v: Value) -> bool
    decreases v,
{
    match v {
        Value::Int(_) => true,
        Value::Bytes(_) => true,
        Value::List(items) => canonical_items(items),
        Value::Dict(entries) => canonical_entries(entries, None),
    }
}

/// Whether every item of `items` is canonical.
pub open spec fn canonical_items(items: Seq<Value>) -> bool
    decreases items,
{
    items.len() == 0 || (canonical(items[0]) && canonical_items(items.drop_first()))
}

/// Whether the keys of `entries` rise strictly from above `last`, and every
/// value is canonical.
pub open spec fn canonical_entries(entries: Seq<(Seq<u8>, Value)>, last: Option<Seq<u8>>) -> bool
    decreases entries,
{
    entries.len() == 0 || ((last is Some ==> bytes_lt(last->0, entries[0].0)) && canonical(
        entries[0].1,
    ) && canonical_entries(entries.drop_first(), Some(entries[0].0)))
}

/// A run of digits ends within the bytes, holds digits only, and is
/// followed by no digit.
pub proof fn lemma_digits_end(data: Seq<u8>, pos: int)
    requires
        0 <= pos <= data.len(),
    ensures
        pos <= digits_end(data, pos) <= data.len(),
        all_digits(data, pos, digits_end(data, pos)),
        digits_end(data, pos) == data.len() || !is_digit(data[digits_end(data, pos)]),
    decreases data.len() - pos,
{
    if pos < data.len() && is_digit(data[pos]) {
        lemma_digits_end(data, pos + 1);
    }
}

/// Digits up to a byte that is no digit are a run of digits.
pub proof fn lemma_digits_end_is(data: Seq<u8>, pos: int, end: int)
    requires
        0 <= pos <= end <= data.len(),
        all_digits(data, pos, end),
        end == data.len() || !is_digit(data[end]),
    ensures
        digits_end(data, pos) == end,
    decreases end - pos,
{
    if pos < end {
        assert(is_digit(data[pos]));
        lemma_digits_end_is(data, pos + 1, end);
    }
}

/// A number that starts with a digit other than zero is not zero.
pub proof fn lemma_value_positive(data: Seq<u8>, pos: int, end: int)
    requires
        0 <= pos < end <= data.len(),
        all_digits(data, pos, end),
        data[pos] != 48,
    ensures
        digits_value(data, pos, end) >= 1,
    decreases end - pos,
{
    assert(is_digit(data[end - 1]));
    if end - 1 > pos {
        lemma_value_positive(data, pos, end - 1);
    } else {
        assert(digits_value(data, pos, pos) == 0);
    }
}

/// A number as it must be written is written as the digits of its value.
pub proof fn lemma_digits_are_decimal(data: Seq<u8>, pos: int, end: int)
    requires
        0 <= pos < end <= data.len(),
        all_digits(data, pos, end),
        plain_number(data, pos, end),
    ensures
        data.subrange(pos, end) == decimal_bytes(digits_value(data, pos, end)),
    decreases end - pos,
{
    let d = data[end - 1];
    assert(is_digit(d));
    let value = digits_value(data, pos, end);
    if end - 1 == pos {
        assert(digits_value(data, pos, pos) == 0);
        assert(data.subrange(pos, end) =~= seq![d]);
    } else {
        let m = digits_value(data, pos, end - 1);
        lemma_value_positive(data, pos, end - 1);
        lemma_digits_are_decimal(data, pos, end - 1);
        assert(value == m * 10 + (d - 48));
        assert(value / 10 == m && value % 10 == d - 48);
        assert(data.subrange(pos, end) =~= data.subrange(pos, end - 1).push(d));
    }
}

/// The digits of a number are digits, at least one, and start with zero
/// only for zero itself.
pub proof fn lemma_decimal_shape(n: nat)
    ensures
        decimal_bytes(n).len() >= 1,
        forall|k: int| 0 <= k < decimal_bytes(n).len() ==> is_digit(#[trigger] decimal_bytes(n)[k]),
        decimal_bytes(n)[0] == 48 ==> n == 0,
        n == 0 ==> decimal_bytes(n) == seq![48u8],
    decreases n,
{
    if n >= 10 {
        lemma_decimal_shape(n / 10);
    }
}

/// The digits of a number, standing in `data` at `pos` and followed by no
/// digit, are read as that number.
pub proof fn lemma_decimal_is_read(data: Seq<u8>, pos: int, n: nat)
    requires
        0 <= pos,
        pos + decimal_bytes(n).len() <= data.len(),
        data.subrange(pos, pos + decimal_bytes(n).len()) == decimal_bytes(n),
        pos + decimal_bytes(n).len() == data.len() || !is_digit(
            data[pos + decimal_bytes(n).len()],
        ),
    ensures
        digits_end(data, pos) == pos + decimal_bytes(n).len(),
        digits_value(data, pos, pos + decimal_bytes(n).len()) == n,
        plain_number(data, pos, pos + decimal_bytes(n).len()),
        all_digits(data, pos, pos + decimal_bytes(n).len()),
{
    let text = decimal_bytes(n);
    let end = pos + text.len();
    lemma_decimal_shape(n);
    assert forall|k: int| pos <= k < end implies is_digit(#[trigger] data[k]) by {
        assert(data[k] == data.subrange(pos, end)[k - pos]);
        assert(is_digit(text[k - pos]));
    }
    lemma_digits_end_is(data, pos, end);
    lemma_decimal_value(data, pos, n);
    assert(data[pos] == data.subrange(pos, end)[0]);
}

/// The digits of a number, standing in `data` at `pos`, spell that number.
proof fn lemma_decimal_value(data: Seq<u8>, pos: int, n: nat)
    requires
        0 <= pos,
        pos + decimal_bytes(n).len() <= data.len(),
        data.subrange(pos, pos + decimal_bytes(n).len()) == decimal_bytes(n),
    ensures
        digits_value(data, pos, pos + decimal_bytes(n).len()) == n,
    decreases n,
{
    let text = decimal_bytes(n);
    let end = pos + text.len();
    lemma_decimal_shape(n);
    assert(data[end - 1] == data.subrange(pos, end)[text.len() - 1]);
    if n < 10 {
        assert(digits_value(data, pos, pos) == 0);
    } else {
        let front = decimal_bytes(n / 10);
        assert(text == front.push((48 + n % 10) as u8));
        assert(data.subrange(pos, pos + front.len()) =~= front) by {
            assert forall|k: int| 0 <= k < front.len() implies data.subrange(
                pos,
                pos + front.len(),
            )[k] == front[k] by {
                assert(data.subrange(pos, end)[k] == text[k]);
            }
        }
        lemma_decimal_value(data, pos, n / 10);
    }
}

/// Every encoding starts with a byte that tells what follows: `i`, a digit,
/// `l` or `d`. None starts with `e`, and none is empty.
pub proof fn lemma_encoding_starts(v: Value)
    ensures
        encoding(v).len() >= 2,
        match v {
            Value::Int(_) => encoding(v)[0] == 105,
            Value::Bytes(_) => is_digit(encoding(v)[0]),
            Value::List(_) => encoding(v)[0] == 108,
            Value::Dict(_) => encoding(v)[0] == 100,
        },
{
    match v {
        Value::Int(i) => {
            if i < 0 {
                lemma_decimal_shape((-i) as nat);
            } else {
                lemma_decimal_shape(i as nat);
            }
        },
        Value::Bytes(bytes) => {
            lemma_decimal_shape(bytes.len());
        },
        _ => {},
    }
}

/// What is read as an integer was written as that integer.
pub proof fn lemma_int_sound(data: Seq<u8>, pos: int)
    requires
        0 <= pos < data.len(),
        data[pos] == 105,
        parse_int(data, pos) is Ok,
    ensures
        pos < parse_int(data, pos)->Ok_0.1 <= data.len(),
        data.subrange(pos, parse_int(data, pos)->Ok_0.1) == encoding(
            Value::Int(parse_int(data, pos)->Ok_0.0),
        ),
{
    let negative = pos + 1 < data.len() && data[pos + 1] == 45;
    let start = if negative {
        pos + 2
    } else {
        pos + 1
    };
    let end = digits_end(data, start);
    let value = digits_value(data, start, end);
    lemma_digits_end(data, start);
    lemma_digits_are_decimal(data, start, end);
    let i = parse_int(data, pos)->Ok_0.0;
    assert(data.subrange(pos, end + 1) =~= seq![105u8] + int_text(i) + seq![101u8]) by {
        if negative {
            assert(int_text(i) == seq![45u8] + decimal_bytes(value));
            assert(data.subrange(pos, end + 1) =~= seq![105u8] + (seq![45u8] + data.subrange(
                start,
                end,
            )) + seq![101u8]);
        } else {
            assert(int_text(i) == decimal_bytes(value));
            assert(data.subrange(pos, end + 1) =~= seq![105u8] + data.subrange(start, end)
                + seq![101u8]);
        }
    }
}

/// What is read as a byte string was written as that byte string.
pub proof fn lemma_bytes_sound(data: Seq<u8>, pos: int)
    requires
        0 <= pos < data.len(),
        parse_bytes(data, pos) is Ok,
    ensures
        pos < parse_bytes(data, pos)->Ok_0.1 <= data.len(),
        data.subrange(pos, parse_bytes(data, pos)->Ok_0.1) == bytes_encoding(
            parse_bytes(data, pos)->Ok_0.0,
        ),
{
    let end = digits_end(data, pos);
    let length = digits_value(data, pos, end);
    lemma_digits_end(data, pos);
    lemma_digits_are_decimal(data, pos, end);
    let bytes = parse_bytes(data, pos)->Ok_0.0;
    assert(bytes.len() == length);
    assert(data.subrange(pos, end + 1 + length) =~= data.subrange(pos, end) + seq![58u8] + bytes);
}

/// What is read as a value was written as that value: the bytes read are
/// the value's encoding, and the value is canonical and not too deep.
pub proof fn lemma_value_sound(data: Seq<u8>, pos: int, depth: nat)
    requires
        parse_value(data, pos, depth) is Ok,
    ensures
        0 <= pos < parse_value(data, pos, depth)->Ok_0.1 <= data.len(),
        data.subrange(pos, parse_value(data, pos, depth)->Ok_0.1) == encoding(
            parse_value(data, pos, depth)->Ok_0.0,
        ),
        canonical(parse_value(data, pos, depth)->Ok_0.0),
        fits_depth(parse_value(data, pos, depth)->Ok_0.0, depth),
    decreases depth, data.len() - pos, 0nat,
{
    let next = parse_value(data, pos, depth)->Ok_0.1;
    if data[pos] == 105 {
        lemma_int_sound(data, pos);
    } else if is_digit(data[pos]) {
        lemma_bytes_sound(data, pos);
    } else if data[pos] == 108 {
        lemma_items_sound(data, pos + 1, (depth - 1) as nat);
        let items = parse_items(data, pos + 1, (depth - 1) as nat)->Ok_0.0;
        assert(data.subrange(pos, next) =~= seq![108u8] + data.subrange(pos + 1, next));
        assert(data.subrange(pos, next) =~= seq![108u8] + encoding_items(items) + seq![101u8]);
    } else {
        lemma_entries_sound(data, pos + 1, (depth - 1) as nat, None);
        let entries = parse_entries(data, pos + 1, (depth - 1) as nat, None)->Ok_0.0;
        assert(data.subrange(pos, next) =~= seq![100u8] + data.subrange(pos + 1, next));
        assert(data.subrange(pos, next) =~= seq![100u8] + encoding_entries(entries) + seq![
            101u8,
        ]);
    }
}

/// What is read as the items of a list was written as those items and the list's end.
pub proof fn lemma_items_sound(data: Seq<u8>, pos: int, depth: nat)
    requires
        parse_items(data, pos, depth) is Ok,
    ensures
        0 <= pos < parse_items(data, pos, depth)->Ok_0.1 <= data.len(),
        data.subrange(pos, parse_items(data, pos, depth)->Ok_0.1) == encoding_items(
            parse_items(data, pos, depth)->Ok_0.0,
        ) + seq![101u8],
        canonical_items(parse_items(data, pos, depth)->Ok_0.0),
        items_fit_depth(parse_items(data, pos, depth)->Ok_0.0, depth),
    decreases depth, data.len() - pos, 1nat,
{
    let end = parse_items(data, pos, depth)->Ok_0.1;
    let items = parse_items(data, pos, depth)->Ok_0.0;
    if data[pos] == 101 {
        assert(data.subrange(pos, pos + 1) =~= Seq::<u8>::empty() + seq![101u8]);
    } else {
        lemma_value_sound(data, pos, depth);
        let item = parse_value(data, pos, depth)->Ok_0.0;
        let next = parse_value(data, pos, depth)->Ok_0.1;
        lemma_items_sound(data, next, depth);
        let rest = parse_items(data, next, depth)->Ok_0.0;
        assert(items == seq![item] + rest);
        assert(items[0] == item && items.drop_first() =~= rest);
        assert(data.subrange(pos, end) =~= data.subrange(pos, next) + data.subrange(next, end));
        assert(data.subrange(pos, end) =~= encoding_items(items) + seq![101u8]);
    }
}

/// What is read as the entries of a dictionary was written as those entries
/// and the dictionary's end, and their keys rise strictly from above `last`.
pub proof fn lemma_entries_sound(data: Seq<u8>, pos: int, depth: nat, last: Option<Seq<u8>>)
    requires
        parse_entries(data, pos, depth, last) is Ok,
    ensures
        0 <= pos < parse_entries(data, pos, depth, last)->Ok_0.1 <= data.len(),
        data.subrange(pos, parse_entries(data, pos, depth, last)->Ok_0.1) == encoding_entries(
            parse_entries(data, pos, depth, last)->Ok_0.0,
        ) + seq![101u8],
        canonical_entries(parse_entries(data, pos, depth, last)->Ok_0.0, last),
        entries_fit_depth(parse_entries(data, pos, depth, last)->Ok_0.0, depth),
    decreases depth, data.len() - pos, 1nat,
{
    let end = parse_entries(data, pos, depth, last)->Ok_0.1;
    let entries = parse_entries(data, pos, depth, last)->Ok_0.0;
    if data[pos] == 101 {
        assert(data.subrange(pos, pos + 1) =~= Seq::<u8>::empty() + seq![101u8]);
    } else {
        lemma_bytes_sound(data, pos);
        let key = parse_bytes(data, pos)->Ok_0.0;
        let at = parse_bytes(data, pos)->Ok_0.1;
        lemma_value_sound(data, at, depth);
        let value = parse_value(data, at, depth)->Ok_0.0;
        let next = parse_value(data, at, depth)->Ok_0.1;
        lemma_entries_sound(data, next, depth, Some(key));
        let rest = parse_entries(data, next, depth, Some(key))->Ok_0.0;
        assert(entries == seq![(key, value)] + rest);
        assert(entries[0] == (key, value) && entries.drop_first() =~= rest);
        assert(data.subrange(pos, end) =~= data.subrange(pos, at) + data.subrange(at, next)
            + data.subrange(next, end));
        assert(data.subrange(pos, end) =~= encoding_entries(entries) + seq![101u8]);
    }
}

/// Bytes that decode to a value are the encoding of that value.
pub proof fn lemma_decoding_sound(data: Seq<u8>)
    requires
        decoding(data) is Ok,
    ensures
        encoding(decoding(data)->Ok_0) == data,
        canonical(decoding(data)->Ok_0),
        fits_depth(decoding(data)->Ok_0, MAX_DEPTH as nat),
{
    lemma_value_sound(data, 0, MAX_DEPTH as nat);
    assert(data.subrange(0, data.len() as int) =~= data);
}

/// Where `a` and then `b` stand in `data`, `a` stands first and `b` behind it.
proof fn lemma_split(data: Seq<u8>, pos: int, a: Seq<u8>, b: Seq<u8>)
    requires
        0 <= pos,
        pos + a.len() + b.len() <= data.len(),
        data.subrange(pos, pos + a.len() + b.len()) == a + b,
    ensures
        data.subrange(pos, pos + a.len()) == a,
        data.subrange(pos + a.len(), pos + a.len() + b.len()) == b,
{
    let whole = data.subrange(pos, pos + a.len() + b.len());
    assert forall|k: int| 0 <= k < a.len() implies data.subrange(pos, pos + a.len())[k] == a[k] by {
        assert(whole[k] == (a + b)[k]);
    }
    assert forall|k: int| 0 <= k < b.len() implies data.subrange(
        pos + a.len(),
        pos + a.len() + b.len(),
    )[k] == b[k] by {
        assert(whole[k + a.len()] == (a + b)[k + a.len()]);
    }
    assert(data.subrange(pos, pos + a.len()) =~= a);
    assert(data.subrange(pos + a.len(), pos + a.len() + b.len()) =~= b);
}

/// The encoding of an integer, standing in `data` at `pos`, is read as that integer.
pub proof fn lemma_int_round_trip(data: Seq<u8>, pos: int, i: i64)
    requires
        0 <= pos,
        pos + encoding(Value::Int(i)).len() <= data.len(),
        data.subrange(pos, pos + encoding(Value::Int(i)).len()) == encoding(Value::Int(i)),
    ensures
        data[pos] == 105,
        parse_int(data, pos) == Ok::<(i64, int), BencodeError>(
            (i, pos + encoding(Value::Int(i)).len()),
        ),
{
    let code = encoding(Value::Int(i));
    let text = int_text(i);
    let whole = data.subrange(pos, pos + code.len());
    assert(code =~= seq![105u8] + (text + seq![101u8]));
    lemma_split(data, pos, seq![105u8], text + seq![101u8]);
    lemma_split(data, pos + 1, text, seq![101u8]);
    assert(data[pos] == data.subrange(pos, pos + 1)[0]);
    assert(data[pos + 1 + text.len()] == data.subrange(
        pos + 1 + text.len(),
        pos + 1 + text.len() + 1,
    )[0]);
    if i < 0 {
        let digits = decimal_bytes((-i) as nat);
        lemma_decimal_shape((-i) as nat);
        lemma_split(data, pos + 1, seq![45u8], digits);
        assert(data[pos + 1] == data.subrange(pos + 1, pos + 2)[0]);
        lemma_decimal_is_read(data, pos + 2, (-i) as nat);
    } else {
        lemma_decimal_shape(i as nat);
        assert(data[pos + 1] == data.subrange(pos + 1, pos + 1 + text.len())[0]);
        assert(is_digit(text[0]));
        lemma_decimal_is_read(data, pos + 1, i as nat);
    }
}

/// The encoding of a byte string, standing in `data` at `pos`, is read as
/// that byte string.
pub proof fn lemma_bytes_round_trip(data: Seq<u8>, pos: int, bytes: Seq<u8>)
    requires
        0 <= pos,
        pos + bytes_encoding(bytes).len() <= data.len(),
        data.subrange(pos, pos + bytes_encoding(bytes).len()) == bytes_encoding(bytes),
    ensures
        is_digit(data[pos]),
        parse_bytes(data, pos) == Ok::<(Seq<u8>, int), BencodeError>(
            (bytes, pos + bytes_encoding(bytes).len()),
        ),
{
    let digits = decimal_bytes(bytes.len());
    lemma_decimal_shape(bytes.len());
    assert(bytes_encoding(bytes) =~= digits + (seq![58u8] + bytes));
    lemma_split(data, pos, digits, seq![58u8] + bytes);
    lemma_split(data, pos + digits.len(), seq![58u8], bytes);
    assert(data[pos] == data.subrange(pos, pos + digits.len())[0]);
    assert(data[pos + digits.len()] == data.subrange(
        pos + digits.len(),
        pos + digits.len() + 1,
    )[0]);
    lemma_decimal_is_read(data, pos, bytes.len());
}

/// The encoding of a value, standing in `data` at `pos`, is read as that
/// value, provided the value is canonical and not too deep.
pub proof fn lemma_value_round_trip(v: Value, data: Seq<u8>, pos: int, depth: nat)
    requires
        canonical(v),
        fits_depth(v, depth),
        0 <= pos,
        pos + encoding(v).len() <= data.len(),
        data.subrange(pos, pos + encoding(v).len()) == encoding(v),
    ensures
        parse_value(data, pos, depth) == Ok::<(Value, int), BencodeError>(
            (v, pos + encoding(v).len()),
        ),
    decreases v,
{
    lemma_encoding_starts(v);
    assert(data[pos] == data.subrange(pos, pos + encoding(v).len())[0]);
    match v {
        Value::Int(i) => {
            lemma_int_round_trip(data, pos, i);
        },
        Value::Bytes(bytes) => {
            lemma_bytes_round_trip(data, pos, bytes);
        },
        Value::List(items) => {
            let body = encoding_items(items) + seq![101u8];
            assert(encoding(v) =~= seq![108u8] + body);
            lemma_split(data, pos, seq![108u8], body);
            lemma_items_round_trip(items, data, pos + 1, (depth - 1) as nat);
        },
        Value::Dict(entries) => {
            let body = encoding_entries(entries) + seq![101u8];
            assert(encoding(v) =~= seq![100u8] + body);
            lemma_split(data, pos, seq![100u8], body);
            lemma_entries_round_trip(entries, data, pos + 1, (depth - 1) as nat, None);
        },
    }
}

/// The encodings of the items of a list and the list's end, standing in
/// `data` at `pos`, are read as those items.
pub proof fn lemma_items_round_trip(items: Seq<Value>, data: Seq<u8>, pos: int, depth: nat)
    requires
        canonical_items(items),
        items_fit_depth(items, depth),
        0 <= pos,
        pos + encoding_items(items).len() + 1 <= data.len(),
        data.subrange(pos, pos + encoding_items(items).len() + 1) == encoding_items(items) + seq![
            101u8,
        ],
    ensures
        parse_items(data, pos, depth) == Ok::<(Seq<Value>, int), BencodeError>(
            (items, pos + encoding_items(items).len() + 1),
        ),
    decreases items,
{
    let end = pos + encoding_items(items).len() + 1;
    let whole = data.subrange(pos, end);
    assert(data[pos] == whole[0]);
    if items.len() > 0 {
        let first = encoding(items[0]);
        let rest = items.drop_first();
        let tail = encoding_items(rest) + seq![101u8];
        lemma_encoding_starts(items[0]);
        assert(encoding_items(items) + seq![101u8] =~= first + tail);
        lemma_split(data, pos, first, tail);
        assert(whole[0] == first[0]);
        assert(data[pos] != 101);
        lemma_value_round_trip(items[0], data, pos, depth);
        lemma_items_round_trip(rest, data, pos + first.len(), depth);
        assert(seq![items[0]] + rest =~= items);
        assert(encoding_items(items).len() == first.len() + encoding_items(rest).len());
        assert(parse_items(data, pos, depth) == item_before(
            items[0],
            parse_items(data, pos + first.len(), depth),
        ));
    } else {
        assert(whole =~= seq![101u8]);
        assert(items =~= Seq::<Value>::empty());
    }
}

/// The encodings of the entries of a dictionary and the dictionary's end,
/// standing in `data` at `pos`, are read as those entries.
pub proof fn lemma_entries_round_trip(
    entries: Seq<(Seq<u8>, Value)>,
    data: Seq<u8>,
    pos: int,
    depth: nat,
    last: Option<Seq<u8>>,
)
    requires
        canonical_entries(entries, last),
        entries_fit_depth(entries, depth),
        0 <= pos,
        pos + encoding_entries(entries).len() + 1 <= data.len(),
        data.subrange(pos, pos + encoding_entries(entries).len() + 1) == encoding_entries(entries)
            + seq![101u8],
    ensures
        parse_entries(data, pos, depth, last) == Ok::<(Seq<(Seq<u8>, Value)>, int), BencodeError>(
            (entries, pos + encoding_entries(entries).len() + 1),
        ),
    decreases entries,
{
    let end = pos + encoding_entries(entries).len() + 1;
    let whole = data.subrange(pos, end);
    assert(data[pos] == whole[0]);
    if entries.len() > 0 {
        let key = bytes_encoding(entries[0].0);
        let value = encoding(entries[0].1);
        let rest = entries.drop_first();
        let tail = encoding_entries(rest) + seq![101u8];
        lemma_encoding_starts(entries[0].1);
        lemma_decimal_shape(entries[0].0.len());
        assert(encoding_entries(entries) + seq![101u8] =~= key + (value + tail));
        lemma_split(data, pos, key, value + tail);
        lemma_split(data, pos + key.len(), value, tail);
        lemma_bytes_round_trip(data, pos, entries[0].0);
        lemma_value_round_trip(entries[0].1, data, pos + key.len(), depth);
        lemma_entries_round_trip(
            rest,
            data,
            pos + key.len() + value.len(),
            depth,
            Some(entries[0].0),
        );
        assert(seq![entries[0]] + rest =~= entries);
        assert(data[pos] == key[0]);
        assert(is_digit(data[pos]));
        assert(encoding_entries(entries).len() == key.len() + value.len() + encoding_entries(
            rest,
        ).len());
        assert(parse_entries(data, pos, depth, last) == entry_before(
            entries[0],
            parse_entries(data, pos + key.len() + value.len(), depth, Some(entries[0].0)),
        ));
    } else {
        assert(whole =~= seq![101u8]);
        assert(entries =~= Seq::<(Seq<u8>, Value)>::empty());
    }
}

/// The encoding of a value decodes to that value, provided the keys of its
/// dictionaries rise strictly and it is nested no deeper than `MAX_DEPTH`.
pub proof fn lemma_encoding_decodes(v: Value)
    requires
        canonical(v),
        fits_depth(v, MAX_DEPTH as nat),
    ensures
        decoding(encoding(v)) == Ok::<Value, BencodeError>(v),
{
    let data = encoding(v);
    assert(data.subrange(0, data.len() as int) =~= data);
    lemma_value_round_trip(v, data, 0, MAX_DEPTH as nat);
}

} // verus!

//! What holds of the grammar: a value takes up bytes; more depth changes no
//! result; what is written down by the rules of the format decodes to itself;
//! a key that is no byte string, and a byte string cut short, are refused.

use crate::bencode::grammar::{
    all_digits, decimal_value, decode, decode_bytes, decode_entries, decode_integer, decode_items,
    decode_value, find, is_digit, DecodeFailure, BYTE_COLON, BYTE_D, BYTE_E, BYTE_I, BYTE_L,
    BYTE_MINUS, MAX_DEPTH,
};
use crate::bencode::encoding::{
    decimal_bytes, encode, encode_bytes, encode_entries, encode_integer, encode_items, larger,
    nesting, nesting_entries, nesting_items,
};
use crate::bencode::value::{lemma_view_items, view_entries, view_items, view_value, BValue, Value};
use vstd::prelude::*;

verus! {

/// `find` stays between `from` and the end, and what it finds is the byte.
pub proof fn lemma_find_bounds(data: Seq<u8>, from: int, byte: u8)
    requires
        0 <= from <= data.len(),
    ensures
        from <= find(data, from, byte) <= data.len(),
        find(data, from, byte) < data.len() ==> data[find(data, from, byte)] == byte,
        forall|i: int| from <= i < find(data, from, byte) ==> data[i] != byte,
    decreases data.len() - from,
{
    if from < data.len() && data[from] != byte {
        lemma_find_bounds(data, from + 1, byte);
    }
}

/// `find` gives the place of the byte where nothing before it is the byte.
pub proof fn lemma_find_first(data: Seq<u8>, from: int, at: int, byte: u8)
    requires
        0 <= from <= at < data.len(),
        data[at] == byte,
        forall|i: int| from <= i < at ==> data[i] != byte,
    ensures
        find(data, from, byte) == at,
    decreases at - from,
{
    if from < at {
        lemma_find_first(data, from + 1, at, byte);
    }
}

/// A value takes up at least one byte and ends inside the data.
pub proof fn law_a_value_takes_bytes(data: Seq<u8>, pos: int, depth: nat)
    requires
        0 <= pos,
    ensures
        decode_value(data, pos, depth) matches Ok((_, next)) ==> pos < next <= data.len(),
    decreases depth, data.len() - pos, 0int,
{
    if pos < data.len() {
        if data[pos] == BYTE_I {
            lemma_find_bounds(data, pos + 1, BYTE_E);
        } else if is_digit(data[pos]) {
            lemma_find_bounds(data, pos, BYTE_COLON);
        } else if data[pos] == BYTE_L {
            if depth > 0 {
                lemma_decode_items_advances(data, pos + 1, (depth - 1) as nat, Seq::empty());
            }
        } else if data[pos] == BYTE_D {
            if depth > 0 {
                lemma_decode_entries_advances(data, pos + 1, (depth - 1) as nat, Map::empty());
            }
        }
    }
}

/// A list ends behind where its items start, inside the data.
pub proof fn lemma_decode_items_advances(data: Seq<u8>, pos: int, depth: nat, before: Seq<Value>)
    requires
        0 <= pos,
    ensures
        decode_items(data, pos, depth, before) matches Ok((_, end)) ==> pos < end <= data.len(),
    decreases depth, data.len() - pos, 1int,
{
    if pos < data.len() && data[pos] != BYTE_E {
        match decode_value(data, pos, depth) {
            Ok((item, next)) => {
                if pos < next <= data.len() {
                    lemma_decode_items_advances(data, next, depth, before.push(item));
                }
            },
            Err(_) => {},
        }
    }
}

/// A dictionary ends behind where its entries start, inside the data.
pub proof fn lemma_decode_entries_advances(
    data: Seq<u8>,
    pos: int,
    depth: nat,
    before: Map<Seq<u8>, Value>,
)
    requires
        0 <= pos,
    ensures
        decode_entries(data, pos, depth, before) matches Ok((_, end)) ==> pos < end <= data.len(),
    decreases depth, data.len() - pos, 1int,
{
    if pos < data.len() && data[pos] != BYTE_E {
        match decode_value(data, pos, depth) {
            Ok((Value::Bytes(key), middle)) => {
                if pos < middle < data.len() {
                    match decode_value(data, middle, depth) {
                        Ok((value, next)) => {
                            if middle < next <= data.len() {
                                lemma_decode_entries_advances(
                                    data,
                                    next,
                                    depth,
                                    before.insert(key, value),
                                );
                            }
                        },
                        Err(_) => {},
                    }
                }
            },
            _ => {},
        }
    }
}

/// `piece` stands in `data` from `pos` on.
pub open spec fn holds_at(data: Seq<u8>, pos: int, piece: Seq<u8>) -> bool {
    &&& 0 <= pos
    &&& pos + piece.len() <= data.len()
    &&& forall|i: int| 0 <= i < piece.len() ==> data[pos + i] == #[trigger] piece[i]
}

/// Where two pieces stand one behind the other, each of them stands.
pub proof fn lemma_holds_at_split(data: Seq<u8>, pos: int, first: Seq<u8>, second: Seq<u8>)
    requires
        holds_at(data, pos, first + second),
    ensures
        holds_at(data, pos, first),
        holds_at(data, pos + first.len(), second),
{
    let both = first + second;
    assert forall|i: int| 0 <= i < first.len() implies data[pos + i] == #[trigger] first[i] by {
        assert(both[i] == first[i]);
    }
    assert forall|i: int| 0 <= i < second.len() implies data[pos + first.len() + i]
        == #[trigger] second[i] by {
        assert(both[first.len() + i] == second[i]);
    }
}

/// A number written in decimal is made of digits and spells the number.
pub proof fn lemma_decimal_bytes(number: nat)
    ensures
        decimal_bytes(number).len() > 0,
        all_digits(decimal_bytes(number)),
        decimal_value(decimal_bytes(number)) == number,
    decreases number,
{
    if number < 10 {
        let digits = decimal_bytes(number);
        assert(decimal_value(digits.drop_last()) == 0);
    } else {
        lemma_decimal_bytes(number / 10);
        let digits = decimal_bytes(number);
        assert(digits.drop_last() =~= decimal_bytes(number / 10));
    }
}

/// What a value is written as starts with `i`, `l`, `d` or a digit.
pub proof fn lemma_encode_starts(value: BValue)
    ensures
        encode(value).len() > 0,
        encode(value)[0] != BYTE_E,
        value is Integer ==> encode(value)[0] == BYTE_I,
        value is Bytes ==> is_digit(encode(value)[0]),
        value is List ==> encode(value)[0] == BYTE_L,
        value is Dict ==> encode(value)[0] == BYTE_D,
{
    match value {
        BValue::Bytes(bytes) => {
            lemma_decimal_bytes(bytes@.len());
        },
        _ => {},
    }
}

/// An integer that is written down decodes to itself.
pub proof fn lemma_roundtrip_integer(data: Seq<u8>, pos: int, number: i64)
    requires
        holds_at(data, pos, encode_integer(number)),
    ensures
        decode_integer(data, pos) == Ok::<(Value, int), DecodeFailure>(
            (Value::Integer(number), pos + encode_integer(number).len()),
        ),
{
    let written = encode_integer(number);
    let magnitude: nat = if number < 0 {
        (-number) as nat
    } else {
        number as nat
    };
    let digits = decimal_bytes(magnitude);
    lemma_decimal_bytes(magnitude);
    let first: int = if number < 0 {
        pos + 2
    } else {
        pos + 1
    };
    let end = first + digits.len();
    assert(data[end] == BYTE_E) by {
        assert(written[end - pos] == BYTE_E);
    }
    assert forall|i: int| first <= i < end implies data[i] == digits[i - first] by {
        assert(written[i - pos] == digits[i - first]);
    }
    if number < 0 {
        assert(data[pos + 1] == BYTE_MINUS) by {
            assert(written[1] == BYTE_MINUS);
        }
    }
    lemma_find_first(data, pos + 1, end, BYTE_E);
    let span = data.subrange(pos + 1, end);
    if number < 0 {
        assert(span.skip(1) =~= digits);
    } else {
        assert(span =~= digits);
    }
}

/// A byte string that is written down decodes to itself.
pub proof fn lemma_roundtrip_bytes(data: Seq<u8>, pos: int, bytes: Seq<u8>)
    requires
        holds_at(data, pos, encode_bytes(bytes)),
        bytes.len() <= usize::MAX,
    ensures
        decode_bytes(data, pos) == Ok::<(Value, int), DecodeFailure>(
            (Value::Bytes(bytes), pos + encode_bytes(bytes).len()),
        ),
        is_digit(data[pos]),
{
    let written = encode_bytes(bytes);
    let digits = decimal_bytes(bytes.len());
    lemma_decimal_bytes(bytes.len());
    let colon = pos + digits.len();
    assert(data[colon] == BYTE_COLON) by {
        assert(written[colon - pos] == BYTE_COLON);
    }
    assert forall|i: int| pos <= i < colon implies data[i] == digits[i - pos] by {
        assert(written[i - pos] == digits[i - pos]);
    }
    lemma_find_first(data, pos, colon, BYTE_COLON);
    assert(data.subrange(pos, colon) =~= digits);
    assert forall|i: int| 0 <= i < bytes.len() implies data[colon + 1 + i] == bytes[i] by {
        assert(written[digits.len() + 1 + i] == bytes[i]);
    }
    assert(data.subrange(colon + 1, colon + 1 + bytes.len()) =~= bytes);
}

/// The mapping `before` with the entries inserted in turn.
pub open spec fn extend(before: Map<Seq<u8>, Value>, entries: Seq<(Vec<u8>, BValue)>) -> Map<
    Seq<u8>,
    Value,
>
    decreases entries.len(),
{
    if entries.len() == 0 {
        before
    } else {
        extend(
            before.insert(entries.first().0@, view_value(entries.first().1)),
            entries.drop_first(),
        )
    }
}

/// One more entry at the end is one more insertion at the end.
pub proof fn lemma_extend_push(
    before: Map<Seq<u8>, Value>,
    entries: Seq<(Vec<u8>, BValue)>,
    entry: (Vec<u8>, BValue),
)
    ensures
        extend(before, entries.push(entry)) == extend(before, entries).insert(
            entry.0@,
            view_value(entry.1),
        ),
    decreases entries.len(),
{
    let longer = entries.push(entry);
    if entries.len() == 0 {
        assert(extend(before.insert(entry.0@, view_value(entry.1)), longer.drop_first())
            == before.insert(entry.0@, view_value(entry.1)));
    } else {
        assert(longer.drop_first() =~= entries.drop_first().push(entry));
        lemma_extend_push(
            before.insert(entries.first().0@, view_value(entries.first().1)),
            entries.drop_first(),
            entry,
        );
    }
}

/// The mapping that entries stand for is the empty mapping with the entries
/// inserted in turn.
pub proof fn lemma_extend_is_view(entries: Seq<(Vec<u8>, BValue)>)
    ensures
        extend(Map::empty(), entries) == view_entries(entries),
    decreases entries.len(),
{
    if entries.len() > 0 {
        lemma_extend_is_view(entries.drop_last());
        lemma_extend_push(Map::empty(), entries.drop_last(), entries.last());
        assert(entries.drop_last().push(entries.last()) =~= entries);
    }
}

/// A value that is written down decodes to itself, where the depth allows
/// for its nesting.
pub proof fn lemma_roundtrip_value(data: Seq<u8>, pos: int, value: BValue, depth: nat)
    requires
        holds_at(data, pos, encode(value)),
        nesting(value) <= depth,
    ensures
        decode_value(data, pos, depth) == Ok::<(Value, int), DecodeFailure>(
            (value@, pos + encode(value).len()),
        ),
    decreases value, 1int,
{
    lemma_encode_starts(value);
    match value {
        BValue::Integer(number) => {
            lemma_roundtrip_integer(data, pos, number);
        },
        BValue::Bytes(bytes) => {
            assert(bytes@.len() == bytes.len());
            lemma_roundtrip_bytes(data, pos, bytes@);
        },
        BValue::List(items) => {
            let inner = encode_items(items@);
            lemma_holds_at_split(data, pos, seq![BYTE_L] + inner, seq![BYTE_E]);
            lemma_holds_at_split(data, pos, seq![BYTE_L], inner);
            lemma_roundtrip_items(data, pos + 1, items@, (depth - 1) as nat, Seq::empty());
            let end = pos + 1 + inner.len();
            assert(data[end] == BYTE_E) by {
                assert(seq![BYTE_E][0] == BYTE_E);
            }
        },
        BValue::Dict(entries) => {
            let inner = encode_entries(entries@);
            lemma_holds_at_split(data, pos, seq![BYTE_D] + inner, seq![BYTE_E]);
            lemma_holds_at_split(data, pos, seq![BYTE_D], inner);
            lemma_roundtrip_entries(data, pos + 1, entries@, (depth - 1) as nat, Map::empty());
            let end = pos + 1 + inner.len();
            assert(data[end] == BYTE_E) by {
                assert(seq![BYTE_E][0] == BYTE_E);
            }
            lemma_extend_is_view(entries@);
        },
    }
}

/// Items that are written down decode to themselves, behind the items
/// decoded before them.
pub proof fn lemma_roundtrip_items(
    data: Seq<u8>,
    pos: int,
    items: Seq<BValue>,
    depth: nat,
    before: Seq<Value>,
)
    requires
        holds_at(data, pos, encode_items(items)),
        nesting_items(items) <= depth,
    ensures
        decode_items(data, pos, depth, before) == decode_items(
            data,
            pos + encode_items(items).len(),
            depth,
            before + view_items(items),
        ),
    decreases items, 0int,
{
    if items.len() > 0 {
        let first = items.first();
        let rest = items.drop_first();
        lemma_holds_at_split(data, pos, encode(first), encode_items(rest));
        lemma_encode_starts(first);
        lemma_roundtrip_value(data, pos, first, depth);
        let next = pos + encode(first).len();
        lemma_roundtrip_items(data, next, rest, depth, before.push(first@));
        lemma_view_items(items);
        lemma_view_items(rest);
        let joined = before + view_items(items);
        let stepped = before.push(first@) + view_items(rest);
        assert forall|i: int| 0 <= i < joined.len() implies joined[i] == stepped[i] by {
            if i > before.len() {
                let k = i - before.len();
                assert(view_items(rest)[k - 1] == view_value(rest[k - 1]));
            }
        }
        assert(stepped =~= joined);
    }
}

/// Entries that are written down decode to themselves, on top of the
/// entries decoded before them.
pub proof fn lemma_roundtrip_entries(
    data: Seq<u8>,
    pos: int,
    entries: Seq<(Vec<u8>, BValue)>,
    depth: nat,
    before: Map<Seq<u8>, Value>,
)
    requires
        holds_at(data, pos, encode_entries(entries)),
        nesting_entries(entries) <= depth,
    ensures
        decode_entries(data, pos, depth, before) == decode_entries(
            data,
            pos + encode_entries(entries).len(),
            depth,
            extend(before, entries),
        ),
    decreases entries, 0int,
{
    if entries.len() > 0 {
        let key = entries.first().0;
        let value = entries.first().1;
        let rest = entries.drop_first();
        lemma_holds_at_split(
            data,
            pos,
            encode_bytes(key@) + encode(value),
            encode_entries(rest),
        );
        lemma_holds_at_split(data, pos, encode_bytes(key@), encode(value));
        assert(key@.len() == key.len());
        lemma_roundtrip_bytes(data, pos, key@);
        let middle = pos + encode_bytes(key@).len();
        lemma_encode_starts(value);
        lemma_roundtrip_value(data, middle, value, depth);
        let next = middle + encode(value).len();
        lemma_roundtrip_entries(data, next, rest, depth, before.insert(key@, value@));
        assert(decode_value(data, pos, depth) == decode_bytes(data, pos));
    }
}

/// What is written down by the rules of the format decodes to the value it
/// was written from, and the decoder takes no byte of what follows it. This
/// holds of every value whose lists and dictionaries are nested no deeper
/// than the decoder goes.
pub proof fn law_decode_inverts_encode(value: BValue, rest: Seq<u8>)
    requires
        nesting(value) <= MAX_DEPTH,
    ensures
        decode(encode(value) + rest) == Ok::<(Value, int), DecodeFailure>(
            (value@, encode(value).len() as int),
        ),
        (encode(value) + rest).skip(encode(value).len() as int) == rest,
{
    let data = encode(value) + rest;
    lemma_roundtrip_value(data, 0, value, MAX_DEPTH as nat);
}

/// A value that decodes at one depth decodes to the same at any greater depth.
pub proof fn lemma_depth_value(data: Seq<u8>, pos: int, shallow: nat, deep: nat)
    requires
        shallow <= deep,
        decode_value(data, pos, shallow) is Ok,
    ensures
        decode_value(data, pos, deep) == decode_value(data, pos, shallow),
    decreases shallow, data.len() - pos, 0int,
{
    if 0 <= pos < data.len() && !(data[pos] == BYTE_I) && !is_digit(data[pos]) {
        if data[pos] == BYTE_L {
            lemma_depth_items(
                data,
                pos + 1,
                (shallow - 1) as nat,
                (deep - 1) as nat,
                Seq::empty(),
            );
        } else if data[pos] == BYTE_D {
            lemma_depth_entries(
                data,
                pos + 1,
                (shallow - 1) as nat,
                (deep - 1) as nat,
                Map::empty(),
            );
        }
    }
}

/// Items that decode at one depth decode to the same at any greater depth.
pub proof fn lemma_depth_items(
    data: Seq<u8>,
    pos: int,
    shallow: nat,
    deep: nat,
    before: Seq<Value>,
)
    requires
        shallow <= deep,
        decode_items(data, pos, shallow, before) is Ok,
    ensures
        decode_items(data, pos, deep, before) == decode_items(data, pos, shallow, before),
    decreases shallow, data.len() - pos, 1int,
{
    if 0 <= pos < data.len() && data[pos] != BYTE_E {
        lemma_depth_value(data, pos, shallow, deep);
        match decode_value(data, pos, shallow) {
            Ok((item, next)) => {
                lemma_depth_items(data, next, shallow, deep, before.push(item));
            },
            Err(_) => {},
        }
    }
}

/// Entries that decode at one depth decode to the same at any greater depth.
pub proof fn lemma_depth_entries(
    data: Seq<u8>,
    pos: int,
    shallow: nat,
    deep: nat,
    before: Map<Seq<u8>, Value>,
)
    requires
        shallow <= deep,
        decode_entries(data, pos, shallow, before) is Ok,
    ensures
        decode_entries(data, pos, deep, before) == decode_entries(data, pos, shallow, before),
    decreases shallow, data.len() - pos, 1int,
{
    if 0 <= pos < data.len() && data[pos] != BYTE_E {
        lemma_depth_value(data, pos, shallow, deep);
        match decode_value(data, pos, shallow) {
            Ok((Value::Bytes(key), middle)) => {
                lemma_depth_value(data, middle, shallow, deep);
                match decode_value(data, middle, shallow) {
                    Ok((value, next)) => {
                        lemma_depth_entries(data, next, shallow, deep, before.insert(key, value));
                    },
                    Err(_) => {},
                }
            },
            _ => {},
        }
    }
}

/// A dictionary with a key that is no byte string does not decode: not where
/// the key is a list or a dictionary, nor where it is an integer, whatever
/// entries stand before it and whatever follows it. Where the nesting is
/// within the decoder's reach, the failure is that of the key.
pub proof fn law_key_must_be_bytes(before: Seq<(Vec<u8>, BValue)>, key: BValue, rest: Seq<u8>)
    requires
        !(key is Bytes),
    ensures
        decode(seq![BYTE_D] + encode_entries(before) + encode(key) + rest) is Err,
        nesting_entries(before) < MAX_DEPTH && nesting(key) < MAX_DEPTH ==> decode(
            seq![BYTE_D] + encode_entries(before) + encode(key) + rest,
        ) == Err::<(Value, int), DecodeFailure>(DecodeFailure::KeyNotBytes),
{
    let data = seq![BYTE_D] + encode_entries(before) + encode(key) + rest;
    let inner = larger(nesting_entries(before), nesting(key));
    let deep: nat = larger(MAX_DEPTH as nat, inner + 1);
    let at: int = 1 + encode_entries(before).len() as int;
    lemma_holds_at_split(data, 0, seq![BYTE_D] + encode_entries(before), encode(key));
    lemma_holds_at_split(data, 0, seq![BYTE_D], encode_entries(before));
    lemma_encode_starts(key);
    assert forall|depth: nat| inner < depth implies #[trigger] decode_value(data, 0, depth) == Err::<
        (Value, int),
        DecodeFailure,
    >(DecodeFailure::KeyNotBytes) by {
        let below = (depth - 1) as nat;
        lemma_roundtrip_entries(data, 1, before, below, Map::empty());
        lemma_roundtrip_value(data, at, key, below);
    }
    if decode(data) is Ok {
        lemma_depth_value(data, 0, MAX_DEPTH as nat, deep);
    }
}

/// A byte string that declares more bytes than the data has left does not
/// decode, and the failure tells how many were declared and how many are left.
pub proof fn law_short_bytes_are_refused(data: Seq<u8>, pos: int, declared: nat, depth: nat)
    requires
        holds_at(data, pos, decimal_bytes(declared) + seq![BYTE_COLON]),
        declared <= usize::MAX,
        data.len() - (pos + decimal_bytes(declared).len() + 1) < declared,
    ensures
        decode_value(data, pos, depth) == Err::<(Value, int), DecodeFailure>(
            DecodeFailure::Truncated {
                needed: declared as usize,
                available: (data.len() - (pos + decimal_bytes(declared).len() + 1)) as usize,
            },
        ),
{
    let digits = decimal_bytes(declared);
    let written = digits + seq![BYTE_COLON];
    lemma_decimal_bytes(declared);
    let colon = pos + digits.len();
    assert(data[colon] == BYTE_COLON) by {
        assert(written[colon - pos] == BYTE_COLON);
    }
    assert forall|i: int| pos <= i < colon implies data[i] == digits[i - pos] by {
        assert(written[i - pos] == digits[i - pos]);
    }
    lemma_find_first(data, pos, colon, BYTE_COLON);
    assert(data.subrange(pos, colon) =~= digits);
}

} // verus!

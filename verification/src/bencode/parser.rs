//! The decoder: recursive descent over a byte slice, with a bounded depth.

use crate::bencode::error::ParseError;
use crate::bencode::grammar::{
    all_digits, decimal_value, decode, decode_bytes, decode_entries, decode_integer, decode_items,
    decode_value, find, is_digit, DecodeFailure, BYTE_COLON, BYTE_D, BYTE_E, BYTE_I, BYTE_L,
    BYTE_MINUS, BYTE_NINE, BYTE_ZERO, MAX_DEPTH,
};
use crate::index::{hash_bytes, hash_of_bytes, Buckets};
use crate::bencode::value::{
    distinct_keys, lemma_view_entries_push, lemma_view_entries_update, lemma_view_items_push,
    same_bytes, view_entries, view_items, BValue, Value,
};
use vstd::prelude::*;
use vstd::slice::{slice_subrange, slice_to_vec};

verus! {

/// A run of digits spells at least what any of its beginnings spells.
pub proof fn lemma_decimal_value_grows(digits: Seq<u8>, upto: int)
    requires
        0 <= upto <= digits.len(),
    ensures
        decimal_value(digits.subrange(0, upto)) <= decimal_value(digits),
    decreases digits.len(),
{
    if upto == digits.len() {
        assert(digits.subrange(0, upto) =~= digits);
    } else {
        lemma_decimal_value_grows(digits.drop_last(), upto);
        assert(digits.drop_last().subrange(0, upto) =~= digits.subrange(0, upto));
    }
}

/// Where `byte` first stands at or after `from`.
fn find_byte(data: &[u8], from: usize, byte: u8) -> (at: usize)
    requires
        from <= data.len(),
    ensures
        at == find(data@, from as int, byte),
        from <= at <= data.len(),
{
    let mut at: usize = from;
    while at < data.len() && data[at] != byte
        invariant
            from <= at <= data.len(),
            find(data@, from as int, byte) == find(data@, at as int, byte),
        decreases data.len() - at,
    {
        at = at + 1;
    }
    at
}

/// The number that `data[from..to]` spells, where it is made of digits and
/// spells no more than `limit`.
fn read_decimal(data: &[u8], from: usize, to: usize, limit: u64) -> (number: Option<u64>)
    requires
        from <= to <= data.len(),
    ensures
        match number {
            Some(n) => {
                &&& all_digits(data@.subrange(from as int, to as int))
                &&& n == decimal_value(data@.subrange(from as int, to as int))
                &&& n <= limit
            },
            None => !all_digits(data@.subrange(from as int, to as int)) || decimal_value(
                data@.subrange(from as int, to as int),
            ) > limit,
        },
{
    let ghost span = data@.subrange(from as int, to as int);
    let mut number: u64 = 0;
    let mut at: usize = from;
    while at < to
        invariant
            from <= at <= to <= data.len(),
            span == data@.subrange(from as int, to as int),
            all_digits(span.subrange(0, at - from)),
            number == decimal_value(span.subrange(0, at - from)),
            number <= limit,
        decreases to - at,
    {
        let byte = data[at];
        let ghost shorter = span.subrange(0, at - from);
        let ghost longer = span.subrange(0, at + 1 - from);
        proof {
            assert(longer.drop_last() =~= shorter);
            lemma_decimal_value_grows(span, at + 1 - from);
        }
        if byte < BYTE_ZERO || byte > BYTE_NINE {
            return None;
        }
        let digit: u64 = (byte - BYTE_ZERO) as u64;
        if number > limit / 10 {
            return None;
        }
        if digit > limit || number * 10 > limit - digit {
            return None;
        }
        number = number * 10 + digit;
        at = at + 1;
    }
    assert(span.subrange(0, at - from) =~= span);
    Some(number)
}

/// Decodes the integer at `pos`.
fn parse_integer(data: &[u8], pos: usize) -> (result: Result<(BValue, usize), DecodeFailure>)
    requires
        pos < data.len(),
        data@[pos as int] == BYTE_I,
    ensures
        decoded(result, decode_integer(data@, pos as int)),
        result matches Ok((_, end)) ==> pos < end <= data.len(),
{
    let end = find_byte(data, pos + 1, BYTE_E);
    if end >= data.len() {
        return Err(DecodeFailure::IntegerUnterminated);
    }
    let ghost span = data@.subrange(pos + 1, end as int);
    let negative = pos + 1 < end && data[pos + 1] == BYTE_MINUS;
    let first: usize = if negative {
        pos + 2
    } else {
        pos + 1
    };
    let ghost digits = data@.subrange(first as int, end as int);
    proof {
        if negative {
            assert(span.skip(1) =~= digits);
        }
    }
    if first >= end {
        return Err(DecodeFailure::IntegerMalformed);
    }
    let limit: u64 = if negative {
        0x8000_0000_0000_0000
    } else {
        0x7fff_ffff_ffff_ffff
    };
    match read_decimal(data, first, end, limit) {
        None => Err(DecodeFailure::IntegerMalformed),
        Some(magnitude) => {
            let number: i64 = if !negative {
                magnitude as i64
            } else if magnitude == 0x8000_0000_0000_0000 {
                i64::MIN
            } else {
                -(magnitude as i64)
            };
            Ok((BValue::Integer(number), end + 1))
        },
    }
}

/// Decodes the byte string at `pos`.
fn parse_bytes(data: &[u8], pos: usize) -> (result: Result<(BValue, usize), DecodeFailure>)
    requires
        pos < data.len(),
        is_digit(data@[pos as int]),
    ensures
        decoded(result, decode_bytes(data@, pos as int)),
        result matches Ok((_, end)) ==> pos < end <= data.len(),
{
    let colon = find_byte(data, pos, BYTE_COLON);
    if colon >= data.len() {
        return Err(DecodeFailure::LengthUnterminated);
    }
    match read_decimal(data, pos, colon, usize::MAX as u64) {
        None => Err(DecodeFailure::LengthMalformed),
        Some(length) => {
            let needed = length as usize;
            let start = colon + 1;
            let available = data.len() - start;
            if needed > available {
                Err(DecodeFailure::Truncated { needed, available })
            } else {
                let bytes = slice_to_vec(slice_subrange(data, start, start + needed));
                Ok((BValue::Bytes(bytes), start + needed))
            }
        },
    }
}

/// What the decoder hands out stands for what the grammar says.
pub open spec fn decoded(
    result: Result<(BValue, usize), DecodeFailure>,
    expected: Result<(Value, int), DecodeFailure>,
) -> bool {
    match expected {
        Ok((value, next)) => result matches Ok((found, end)) && found@ == value && end == next
            && found.wf(),
        Err(failure) => result matches Err(f) && f == failure,
    }
}

/// The hashes of the keys, entry by entry.
pub open spec fn key_hashes(entries: Seq<(Vec<u8>, BValue)>) -> Seq<u64> {
    Seq::new(entries.len(), |i: int| hash_of_bytes(entries[i].0@))
}

/// Where the entry with the key stands, among the positions of `bucket`.
fn find_key(entries: &Vec<(Vec<u8>, BValue)>, bucket: &Vec<usize>, key: &Vec<u8>) -> (found:
    Option<usize>)
    requires
        forall|k: int| 0 <= k < bucket@.len() ==> (#[trigger] bucket@[k]) < entries@.len(),
    ensures
        match found {
            Some(at) => at < entries@.len() && entries@[at as int].0@ == key@,
            None => forall|k: int|
                0 <= k < bucket@.len() ==> entries@[(#[trigger] bucket@[k]) as int].0@ != key@,
        },
{
    let mut k: usize = 0;
    while k < bucket.len()
        invariant
            k <= bucket.len(),
            forall|j: int| 0 <= j < bucket@.len() ==> (#[trigger] bucket@[j]) < entries@.len(),
            forall|j: int| 0 <= j < k ==> entries@[(#[trigger] bucket@[j]) as int].0@ != key@,
        decreases bucket.len() - k,
    {
        let at = bucket[k];
        if same_bytes(entries[at].0.as_slice(), key.as_slice()) {
            return Some(at);
        }
        k = k + 1;
    }
    None
}

/// Puts `value` under `key`: in place of the entry that has the key, or else
/// behind the last entry. `index` finds the entry by the hash of the key.
fn insert_entry(
    entries: &mut Vec<(Vec<u8>, BValue)>,
    index: &mut Buckets,
    key: Vec<u8>,
    value: BValue,
)
    requires
        distinct_keys(old(entries)@),
        old(index).holds(key_hashes(old(entries)@)),
    ensures
        distinct_keys(final(entries)@),
        final(index).holds(key_hashes(final(entries)@)),
        view_entries(final(entries)@) == view_entries(old(entries)@).insert(key@, value@),
        forall|i: int|
            0 <= i < final(entries)@.len() ==> (#[trigger] final(entries)@[i]).1 == value || (i
                < old(entries)@.len() && final(entries)@[i].1 == old(entries)@[i].1),
{
    let hash = hash_bytes(key.as_slice());
    let ghost hashes = key_hashes(entries@);
    assert(entries@.len() == entries.len());
    let found = match index.positions(hash, Ghost(hashes)) {
        Some(bucket) => find_key(entries, bucket, &key),
        None => None,
    };
    match found {
        Some(at) => {
            proof {
                lemma_view_entries_update(entries@, at as int, key, value);
            }
            entries[at] = (key, value);
            assert(key_hashes(entries@) =~= hashes);
        },
        None => {
            proof {
                assert forall|i: int| 0 <= i < entries@.len() implies (#[trigger] entries@[i]).0@
                    != key@ by {
                    if entries@[i].0@ == key@ {
                        assert(hashes[i] == hash);
                    }
                }
                lemma_view_entries_push(entries@, key, value);
            }
            index.add(hash, entries.len(), Ghost(hashes));
            entries.push((key, value));
            assert(key_hashes(entries@) =~= hashes.push(hash));
        },
    }
}

/// Decodes the value at `pos`; `depth` is how many more lists and
/// dictionaries may be entered.
fn parse_value(data: &[u8], pos: usize, depth: usize) -> (result: Result<
    (BValue, usize),
    DecodeFailure,
>)
    requires
        pos <= data.len(),
    ensures
        decoded(result, decode_value(data@, pos as int, depth as nat)),
        result matches Ok((_, end)) ==> pos < end <= data.len(),
    decreases depth, 0int,
{
    if pos >= data.len() {
        return Err(DecodeFailure::UnexpectedEnd);
    }
    let lead = data[pos];
    if lead == BYTE_I {
        parse_integer(data, pos)
    } else if BYTE_ZERO <= lead && lead <= BYTE_NINE {
        parse_bytes(data, pos)
    } else if lead == BYTE_L {
        if depth == 0 {
            return Err(DecodeFailure::TooDeep);
        }
        match parse_items(data, pos + 1, depth - 1) {
            Ok((items, end)) => Ok((BValue::List(items), end)),
            Err(failure) => Err(failure),
        }
    } else if lead == BYTE_D {
        if depth == 0 {
            return Err(DecodeFailure::TooDeep);
        }
        match parse_entries(data, pos + 1, depth - 1) {
            Ok((entries, end)) => Ok((BValue::Dict(entries), end)),
            Err(failure) => Err(failure),
        }
    } else {
        Err(DecodeFailure::UnexpectedByte(lead))
    }
}

/// Decodes the items of a list from `pos` up to its closing `e`.
fn parse_items(data: &[u8], pos: usize, depth: usize) -> (result: Result<
    (Vec<BValue>, usize),
    DecodeFailure,
>)
    requires
        pos <= data.len(),
    ensures
        match decode_items(data@, pos as int, depth as nat, Seq::empty()) {
            Ok((values, next)) => {
                &&& result matches Ok((items, end))
                &&& view_items(items@) == values
                &&& end == next
                &&& pos < end <= data.len()
                &&& forall|i: int| 0 <= i < items@.len() ==> (#[trigger] items@[i]).wf()
            },
            Err(failure) => result matches Err(f) && f == failure,
        },
    decreases depth, 1int,
{
    let mut items: Vec<BValue> = Vec::new();
    let mut at: usize = pos;
    loop
        invariant
            pos <= at <= data.len(),
            decode_items(data@, pos as int, depth as nat, Seq::empty()) == decode_items(
                data@,
                at as int,
                depth as nat,
                view_items(items@),
            ),
            forall|i: int| 0 <= i < items@.len() ==> (#[trigger] items@[i]).wf(),
        decreases data.len() - at,
    {
        if at >= data.len() {
            return Err(DecodeFailure::ListUnterminated);
        }
        if data[at] == BYTE_E {
            return Ok((items, at + 1));
        }
        match parse_value(data, at, depth) {
            Err(failure) => {
                return Err(failure);
            },
            Ok((item, next)) => {
                proof {
                    lemma_view_items_push(items@, item);
                }
                items.push(item);
                at = next;
            },
        }
    }
}

/// Decodes the entries of a dictionary from `pos` up to its closing `e`.
fn parse_entries(data: &[u8], pos: usize, depth: usize) -> (result: Result<
    (Vec<(Vec<u8>, BValue)>, usize),
    DecodeFailure,
>)
    requires
        pos <= data.len(),
    ensures
        match decode_entries(data@, pos as int, depth as nat, Map::empty()) {
            Ok((map, next)) => {
                &&& result matches Ok((entries, end))
                &&& view_entries(entries@) == map
                &&& end == next
                &&& pos < end <= data.len()
                &&& distinct_keys(entries@)
                &&& forall|i: int| 0 <= i < entries@.len() ==> (#[trigger] entries@[i]).1.wf()
            },
            Err(failure) => result matches Err(f) && f == failure,
        },
    decreases depth, 1int,
{
    let mut entries: Vec<(Vec<u8>, BValue)> = Vec::new();
    let mut index = Buckets::new();
    let mut at: usize = pos;
    assert(key_hashes(entries@) =~= Seq::<u64>::empty());
    loop
        invariant
            pos <= at <= data.len(),
            decode_entries(data@, pos as int, depth as nat, Map::empty()) == decode_entries(
                data@,
                at as int,
                depth as nat,
                view_entries(entries@),
            ),
            distinct_keys(entries@),
            index.holds(key_hashes(entries@)),
            forall|i: int| 0 <= i < entries@.len() ==> (#[trigger] entries@[i]).1.wf(),
        decreases data.len() - at,
    {
        if at >= data.len() {
            return Err(DecodeFailure::DictUnterminated);
        }
        if data[at] == BYTE_E {
            return Ok((entries, at + 1));
        }
        let (key, middle) = match parse_value(data, at, depth) {
            Err(failure) => {
                return Err(failure);
            },
            Ok((BValue::Bytes(key), middle)) => (key, middle),
            Ok(_) => {
                return Err(DecodeFailure::KeyNotBytes);
            },
        };
        if middle >= data.len() {
            return Err(DecodeFailure::MissingValue);
        }
        match parse_value(data, middle, depth) {
            Err(failure) => {
                return Err(failure);
            },
            Ok((value, next)) => {
                insert_entry(&mut entries, &mut index, key, value);
                at = next;
            },
        }
    }
}

/// Decodes the value at the start of `data` and tells how many bytes it
/// takes up, or what is wrong with the bytes.
pub fn parse_prefix(data: &[u8]) -> (result: Result<(BValue, usize), DecodeFailure>)
    ensures
        decoded(result, decode(data@)),
        result matches Ok((_, end)) ==> 0 < end <= data.len(),
{
    parse_value(data, 0, MAX_DEPTH)
}

/// Decodes the value at the start of `data` and hands it out with the bytes
/// behind it, or with the message of what is wrong with the bytes.
pub fn parse<'a>(data: &'a [u8]) -> (result: Result<(BValue, &'a [u8]), ParseError>)
    ensures
        match decode(data@) {
            Ok((value, next)) => {
                &&& result matches Ok((found, rest))
                &&& found@ == value
                &&& found.wf()
                &&& rest@ == data@.skip(next)
            },
            Err(failure) => result matches Err(error) && error.0@ == failure.text(),
        },
{
    match parse_prefix(data) {
        Ok((value, end)) => Ok((value, slice_subrange(data, end, data.len()))),
        Err(failure) => Err(failure.report()),
    }
}

} // verus!

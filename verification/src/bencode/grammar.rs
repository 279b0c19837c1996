//! The wire format, as a function from bytes to values.
//!
//! A value is one of
//! - an integer: `i`, an optional `-`, one or more decimal digits, `e`;
//! - a byte string: one or more decimal digits (the length), `:`, and that
//!   many bytes;
//! - a list: `l`, any number of values, `e`;
//! - a dictionary: `d`, any number of pairs of a byte string (the key) and a
//!   value, `e`.
//!
//! Leading zeros and `-0` are read as the numbers they spell. A sign other
//! than a single leading `-`, and a sign without digits, are malformed.
//! An integer outside the 64-bit signed range is malformed, and so is a
//! length that does not fit the machine word.

use crate::bencode::value::Value;
use vstd::prelude::*;

verus! {

/// How many lists and dictionaries may stand inside one another. A value
/// nested more deeply is refused, so that decoding uses a bounded stack.
pub const MAX_DEPTH: usize = 256;

/// `:`, which ends the length of a byte string.
pub const BYTE_COLON: u8 = 0x3a;

/// `-`, the sign of a negative integer.
pub const BYTE_MINUS: u8 = 0x2d;

/// `0`, the first of the digits.
pub const BYTE_ZERO: u8 = 0x30;

/// `9`, the last of the digits.
pub const BYTE_NINE: u8 = 0x39;

/// `d`, which starts a dictionary.
pub const BYTE_D: u8 = 0x64;

/// `e`, which ends an integer, a list and a dictionary.
pub const BYTE_E: u8 = 0x65;

/// `i`, which starts an integer.
pub const BYTE_I: u8 = 0x69;

/// `l`, which starts a list.
pub const BYTE_L: u8 = 0x6c;

/// Why a run of bytes is not a value.
#[derive(Debug, Clone, Copy, PartialEq, Eq, Structural)]
pub enum DecodeFailure {
    /// A value was expected where the input ends.
    UnexpectedEnd,
    /// A value was expected where this byte stands, and no value starts with it.
    UnexpectedByte(u8),
    /// No `e` follows the `i` of an integer.
    IntegerUnterminated,
    /// What stands between `i` and `e` is not a number in the 64-bit signed range.
    IntegerMalformed,
    /// No `:` follows the length of a byte string.
    LengthUnterminated,
    /// What stands before the `:` is not a number that fits the machine word.
    LengthMalformed,
    /// A byte string declares more bytes than are left.
    Truncated { needed: usize, available: usize },
    /// The input ends inside a list.
    ListUnterminated,
    /// The input ends inside a dictionary.
    DictUnterminated,
    /// A dictionary has a key that is not a byte string.
    KeyNotBytes,
    /// The input ends after a key of a dictionary.
    MissingValue,
    /// Lists and dictionaries are nested more than `MAX_DEPTH` deep.
    TooDeep,
}

/// Whether the byte is a decimal digit.
pub open spec fn is_digit(byte: u8) -> bool {
    BYTE_ZERO <= byte <= BYTE_NINE
}

/// Whether the bytes are decimal digits, all of them.
pub open spec fn all_digits(bytes: Seq<u8>) -> bool {
    forall|i: int| 0 <= i < bytes.len() ==> is_digit(#[trigger] bytes[i])
}

/// The number that a digit stands for; zero for any other byte.
pub open spec fn digit_value(byte: u8) -> nat {
    if is_digit(byte) {
        (byte - BYTE_ZERO) as nat
    } else {
        0
    }
}

/// The number that a run of decimal digits spells, most significant first.
pub open spec fn decimal_value(digits: Seq<u8>) -> nat
    decreases digits.len(),
{
    if digits.len() == 0 {
        0
    } else {
        10 * decimal_value(digits.drop_last()) + digit_value(digits.last())
    }
}

/// Where `byte` first stands at or after `from`; `data.len()` where it does not.
pub open spec fn find(data: Seq<u8>, from: int, byte: u8) -> int
    decreases data.len() - from,
{
    if from >= data.len() {
        data.len() as int
    } else if data[from] == byte {
        from
    } else {
        find(data, from + 1, byte)
    }
}

/// The integer that the bytes between `i` and `e` spell, if they spell one.
pub open spec fn integer_of(span: Seq<u8>) -> Option<i64> {
    let negative = span.len() > 0 && span[0] == BYTE_MINUS;
    let digits = if negative {
        span.skip(1)
    } else {
        span
    };
    let number = if negative {
        -(decimal_value(digits) as int)
    } else {
        decimal_value(digits) as int
    };
    if digits.len() > 0 && all_digits(digits) && i64::MIN <= number <= i64::MAX {
        Some(number as i64)
    } else {
        None
    }
}

/// An integer that starts at `pos`, where `data[pos]` is `i`.
pub open spec fn decode_integer(data: Seq<u8>, pos: int) -> Result<(Value, int), DecodeFailure> {
    let end = find(data, pos + 1, BYTE_E);
    if end >= data.len() {
        Err(DecodeFailure::IntegerUnterminated)
    } else {
        match integer_of(data.subrange(pos + 1, end)) {
            Some(number) => Ok((Value::Integer(number), end + 1)),
            None => Err(DecodeFailure::IntegerMalformed),
        }
    }
}

/// A byte string that starts at `pos`, where `data[pos]` is a digit.
pub open spec fn decode_bytes(data: Seq<u8>, pos: int) -> Result<(Value, int), DecodeFailure> {
    let colon = find(data, pos, BYTE_COLON);
    if colon >= data.len() {
        Err(DecodeFailure::LengthUnterminated)
    } else {
        let digits = data.subrange(pos, colon);
        let needed = decimal_value(digits);
        let start = colon + 1;
        let available = data.len() - start;
        if !all_digits(digits) || needed > usize::MAX {
            Err(DecodeFailure::LengthMalformed)
        } else if needed > available {
            Err(
                DecodeFailure::Truncated {
                    needed: needed as usize,
                    available: available as usize,
                },
            )
        } else {
            Ok((Value::Bytes(data.subrange(start, start + needed)), start + needed))
        }
    }
}

/// The value that starts at `pos`, and the position behind it. `depth` is
/// how many more lists and dictionaries may be entered.
pub open spec fn decode_value(data: Seq<u8>, pos: int, depth: nat) -> Result<
    (Value, int),
    DecodeFailure,
>
    recommends
        0 <= pos,
    decreases depth, data.len() - pos, 0int,
{
    if pos < 0 || pos >= data.len() {
        Err(DecodeFailure::UnexpectedEnd)
    } else if data[pos] == BYTE_I {
        decode_integer(data, pos)
    } else if is_digit(data[pos]) {
        decode_bytes(data, pos)
    } else if data[pos] == BYTE_L {
        if depth == 0 {
            Err(DecodeFailure::TooDeep)
        } else {
            match decode_items(data, pos + 1, (depth - 1) as nat, Seq::empty()) {
                Ok((items, end)) => Ok((Value::List(items), end)),
                Err(failure) => Err(failure),
            }
        }
    } else if data[pos] == BYTE_D {
        if depth == 0 {
            Err(DecodeFailure::TooDeep)
        } else {
            match decode_entries(data, pos + 1, (depth - 1) as nat, Map::empty()) {
                Ok((map, end)) => Ok((Value::Dict(map), end)),
                Err(failure) => Err(failure),
            }
        }
    } else {
        Err(DecodeFailure::UnexpectedByte(data[pos]))
    }
}

/// The rest of a list from `pos` on, behind the items `before`: those items
/// and the ones up to the closing `e`, and the position behind the `e`.
///
/// A value takes up at least one byte and ends inside the data
/// (`law_a_value_takes_bytes`); the test for it here is what shows that
/// the definition terminates.
pub open spec fn decode_items(data: Seq<u8>, pos: int, depth: nat, before: Seq<Value>) -> Result<
    (Seq<Value>, int),
    DecodeFailure,
>
    recommends
        0 <= pos,
    decreases depth, data.len() - pos, 1int,
{
    if pos < 0 || pos >= data.len() {
        Err(DecodeFailure::ListUnterminated)
    } else if data[pos] == BYTE_E {
        Ok((before, pos + 1))
    } else {
        match decode_value(data, pos, depth) {
            Ok((item, next)) => if pos < next <= data.len() {
                decode_items(data, next, depth, before.push(item))
            } else {
                Err(DecodeFailure::UnexpectedEnd)
            },
            Err(failure) => Err(failure),
        }
    }
}

/// The rest of a dictionary from `pos` on, behind the entries `before`: the
/// mapping with the entries up to the closing `e` inserted in turn, and the
/// position behind the `e`. A key that comes again overwrites.
pub open spec fn decode_entries(
    data: Seq<u8>,
    pos: int,
    depth: nat,
    before: Map<Seq<u8>, Value>,
) -> Result<(Map<Seq<u8>, Value>, int), DecodeFailure>
    recommends
        0 <= pos,
    decreases depth, data.len() - pos, 1int,
{
    if pos < 0 || pos >= data.len() {
        Err(DecodeFailure::DictUnterminated)
    } else if data[pos] == BYTE_E {
        Ok((before, pos + 1))
    } else {
        match decode_value(data, pos, depth) {
            Ok((Value::Bytes(key), middle)) => if !(pos < middle <= data.len()) {
                Err(DecodeFailure::UnexpectedEnd)
            } else if middle == data.len() {
                Err(DecodeFailure::MissingValue)
            } else {
                match decode_value(data, middle, depth) {
                    Ok((value, next)) => if middle < next <= data.len() {
                        decode_entries(data, next, depth, before.insert(key, value))
                    } else {
                        Err(DecodeFailure::UnexpectedEnd)
                    },
                    Err(failure) => Err(failure),
                }
            },
            Ok(_) => Err(DecodeFailure::KeyNotBytes),
            Err(failure) => Err(failure),
        }
    }
}

/// The value at the start of `data`, and how many bytes it takes up.
pub open spec fn decode(data: Seq<u8>) -> Result<(Value, int), DecodeFailure> {
    decode_value(data, 0, MAX_DEPTH as nat)
}

} // verus!

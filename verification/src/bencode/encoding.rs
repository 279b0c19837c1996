//! How a value is written down: the encoder of the wire format, as a
//! specification. Nothing in the library writes the format; the encoder is
//! what the laws of the decoder are stated against.

use crate::bencode::grammar::{BYTE_COLON, BYTE_D, BYTE_E, BYTE_I, BYTE_L, BYTE_MINUS, BYTE_ZERO};
use crate::bencode::value::BValue;
use vstd::prelude::*;

verus! {

/// A number in decimal digits, without leading zeros.
pub open spec fn decimal_bytes(number: nat) -> Seq<u8>
    decreases number,
{
    if number < 10 {
        seq![(BYTE_ZERO + number) as u8]
    } else {
        decimal_bytes(number / 10).push((BYTE_ZERO + number % 10) as u8)
    }
}

/// `i`, the number in decimal with `-` before a negative one, `e`.
pub open spec fn encode_integer(number: i64) -> Seq<u8> {
    if number < 0 {
        seq![BYTE_I, BYTE_MINUS] + decimal_bytes((-number) as nat) + seq![BYTE_E]
    } else {
        seq![BYTE_I] + decimal_bytes(number as nat) + seq![BYTE_E]
    }
}

/// The length in decimal, `:`, the bytes.
pub open spec fn encode_bytes(bytes: Seq<u8>) -> Seq<u8> {
    decimal_bytes(bytes.len()) + seq![BYTE_COLON] + bytes
}

/// The items of a list, one behind the other.
pub open spec fn encode_items(items: Seq<BValue>) -> Seq<u8>
    decreases items, 0int,
{
    if items.len() == 0 {
        Seq::empty()
    } else {
        encode(items.first()) + encode_items(items.drop_first())
    }
}

/// The entries of a dictionary, each as its key and its value, one behind
/// the other in the order given.
pub open spec fn encode_entries(entries: Seq<(Vec<u8>, BValue)>) -> Seq<u8>
    decreases entries, 0int,
{
    if entries.len() == 0 {
        Seq::empty()
    } else {
        encode_bytes(entries.first().0@) + encode(entries.first().1) + encode_entries(
            entries.drop_first(),
        )
    }
}

/// A value as the format writes it.
pub open spec fn encode(value: BValue) -> Seq<u8>
    decreases value, 1int,
{
    match value {
        BValue::Integer(number) => encode_integer(number),
        BValue::Bytes(bytes) => encode_bytes(bytes@),
        BValue::List(items) => seq![BYTE_L] + encode_items(items@) + seq![BYTE_E],
        BValue::Dict(entries) => seq![BYTE_D] + encode_entries(entries@) + seq![BYTE_E],
    }
}

/// The larger of two numbers.
pub open spec fn larger(a: nat, b: nat) -> nat {
    if a >= b {
        a
    } else {
        b
    }
}

/// The deepest nesting among the items.
pub open spec fn nesting_items(items: Seq<BValue>) -> nat
    decreases items, 0int,
{
    if items.len() == 0 {
        0
    } else {
        larger(nesting(items.first()), nesting_items(items.drop_first()))
    }
}

/// The deepest nesting among the values of the entries.
pub open spec fn nesting_entries(entries: Seq<(Vec<u8>, BValue)>) -> nat
    decreases entries, 0int,
{
    if entries.len() == 0 {
        0
    } else {
        larger(nesting(entries.first().1), nesting_entries(entries.drop_first()))
    }
}

/// How many lists and dictionaries stand inside one another in the value,
/// itself counted.
pub open spec fn nesting(value: BValue) -> nat
    decreases value, 1int,
{
    match value {
        BValue::List(items) => 1 + nesting_items(items@),
        BValue::Dict(entries) => 1 + nesting_entries(entries@),
        _ => 0,
    }
}

} // verus!

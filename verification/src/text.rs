//! Text helpers: lossy UTF-8 decoding and decimal and hexadecimal rendering.

use vstd::prelude::*;
use vstd::utf8::{decode_utf8, valid_utf8};

verus! {

/// The text that `String::from_utf8_lossy` makes of `bytes`: the decoded
/// characters, with U+FFFD in place of every ill-formed sequence.
pub uninterp spec fn utf8_lossy(bytes: Seq<u8>) -> Seq<char>;

/// Calls `String::from_utf8_lossy` and takes ownership of what it returns.
/// The result is a function of the bytes alone; it is named, not spelled out.
/// Bytes that are UTF-8 come out as the text they encode.
#[verifier::external_body]
pub(crate) fn decode_lossy(bytes: &[u8]) -> (text: String)
    ensures
        text@ == utf8_lossy(bytes@),
        valid_utf8(bytes@) ==> text@ == decode_utf8(bytes@),
{
    String::from_utf8_lossy(bytes).into_owned()
}

/// `String::push` appends one character to the end of the string.
pub assume_specification[ String::push ](s: &mut String, ch: char)
    ensures
        final(s)@ == old(s)@.push(ch),
;

/// The character for a digit below ten.
pub open spec fn digit_char(digit: nat) -> char {
    ((0x30 + digit) as u8) as char
}

/// The character for a hexadecimal digit, in lower case.
pub open spec fn hex_char(digit: nat) -> char {
    if digit < 10 {
        ((0x30 + digit) as u8) as char
    } else {
        ((0x57 + digit) as u8) as char
    }
}

/// A number in decimal, without leading zeros.
pub open spec fn decimal_text(number: nat) -> Seq<char>
    decreases number,
{
    if number < 10 {
        seq![digit_char(number)]
    } else {
        decimal_text(number / 10).push(digit_char(number % 10))
    }
}

/// A number in decimal, filled with zeros on the left to at least `width` characters.
pub open spec fn padded_decimal_text(number: nat, width: nat) -> Seq<char>
    decreases width,
{
    if width <= decimal_text(number).len() {
        decimal_text(number)
    } else {
        seq!['0'] + padded_decimal_text(number, (width - 1) as nat)
    }
}

/// A byte as two hexadecimal digits.
pub open spec fn hex_pair(byte: u8) -> Seq<char> {
    seq![hex_char((byte / 16) as nat), hex_char((byte % 16) as nat)]
}

/// Appends `number` in decimal.
pub fn push_decimal(out: &mut String, number: u64)
    ensures
        final(out)@ == old(out)@ + decimal_text(number as nat),
    decreases number,
{
    if number >= 10 {
        push_decimal(out, number / 10);
    }
    let digit: u8 = (number % 10) as u8;
    out.push((0x30 + digit) as char);
}

/// How many digits a number has in decimal.
fn count_digits(number: u64) -> (count: u64)
    ensures
        count == decimal_text(number as nat).len(),
        1 <= count <= number + 1,
    decreases number,
{
    if number < 10 {
        1
    } else {
        1 + count_digits(number / 10)
    }
}

/// Appends `number` in decimal, filled with zeros on the left to at least
/// `width` characters.
pub fn push_padded_decimal(out: &mut String, number: u64, width: u64)
    ensures
        final(out)@ == old(out)@ + padded_decimal_text(number as nat, width as nat),
{
    let digits = count_digits(number);
    let mut left = width;
    while left > digits
        invariant
            digits == decimal_text(number as nat).len(),
            out@ + padded_decimal_text(number as nat, left as nat) == old(out)@
                + padded_decimal_text(number as nat, width as nat),
        decreases left,
    {
        out.push('0');
        left = left - 1;
    }
    push_decimal(out, number);
}

/// A number that may be negative in decimal, filled with zeros to at least
/// `width` characters, the sign counted.
pub open spec fn padded_int_text(number: int, width: nat) -> Seq<char> {
    if number < 0 {
        seq!['-'] + padded_decimal_text((-number) as nat, (width - 1) as nat)
    } else {
        padded_decimal_text(number as nat, width)
    }
}

/// Appends a number that may be negative in decimal, filled with zeros
/// to at least `width` characters, the sign counted.
pub fn push_padded_int(out: &mut String, number: i64, width: u64)
    requires
        width >= 1,
    ensures
        final(out)@ == old(out)@ + padded_int_text(number as int, width as nat),
{
    if number < 0 {
        let magnitude: u64 = if number == i64::MIN {
            0x8000_0000_0000_0000
        } else {
            (-number) as u64
        };
        out.push('-');
        push_padded_decimal(out, magnitude, width - 1);
    } else {
        push_padded_decimal(out, number as u64, width);
    }
}

/// Appends `byte` as two hexadecimal digits.
pub fn push_hex_pair(out: &mut String, byte: u8)
    ensures
        final(out)@ == old(out)@ + hex_pair(byte),
{
    let high: u8 = byte / 16;
    let low: u8 = byte % 16;
    out.push(hex_digit(high));
    out.push(hex_digit(low));
}

/// The character for a hexadecimal digit.
fn hex_digit(digit: u8) -> (c: char)
    requires
        digit < 16,
    ensures
        c == hex_char(digit as nat),
{
    if digit < 10 {
        (0x30 + digit) as char
    } else {
        (0x57 + digit) as char
    }
}

} // verus!

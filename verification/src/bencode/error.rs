//! The error that decoding and manifest extraction report, and its wording.

use crate::bencode::grammar::DecodeFailure;
use crate::text::{decimal_text, hex_pair, push_decimal, push_hex_pair};
use vstd::prelude::*;

verus! {

/// A failure to decode or to find the file list, as a message.
#[derive(Debug)]
pub struct ParseError(pub String);

impl ParseError {
    /// The message with the heading that marks it as a decoding error.
    pub open spec fn spec_describe(self) -> Seq<char> {
        "Bencode parse error: "@ + self.0@
    }

    /// The message with the heading that marks it as a decoding error.
    pub fn describe(&self) -> (line: String)
        ensures
            line@ == self.spec_describe(),
    {
        let mut line = String::from_str("Bencode parse error: ");
        line.append(self.0.as_str());
        line
    }
}

impl DecodeFailure {
    /// The message for the failure.
    pub open spec fn text(self) -> Seq<char> {
        match self {
            DecodeFailure::UnexpectedEnd => "Unexpected end of data"@,
            DecodeFailure::UnexpectedByte(byte) => "Unexpected byte '"@ + seq![byte as char]
                + "' (0x"@ + hex_pair(byte) + ")"@,
            DecodeFailure::IntegerUnterminated => "Integer: missing 'e'"@,
            DecodeFailure::IntegerMalformed => "Integer: bad format"@,
            DecodeFailure::LengthUnterminated => "String: missing ':'"@,
            DecodeFailure::LengthMalformed => "String: bad length"@,
            DecodeFailure::Truncated { needed, available } => "String: expected "@ + decimal_text(
                needed as nat,
            ) + " bytes but only "@ + decimal_text(available as nat) + " available"@,
            DecodeFailure::ListUnterminated => "List: missing 'e'"@,
            DecodeFailure::DictUnterminated => "Dictionary: missing 'e'"@,
            DecodeFailure::KeyNotBytes => "Dictionary: key must be byte string"@,
            DecodeFailure::MissingValue => "Dictionary: missing value"@,
            DecodeFailure::TooDeep => "Nesting too deep"@,
        }
    }

    /// The failure as an error that carries its message.
    pub fn report(&self) -> (error: ParseError)
        ensures
            error.0@ == self.text(),
    {
        match self {
            DecodeFailure::UnexpectedEnd => ParseError(String::from_str("Unexpected end of data")),
            DecodeFailure::UnexpectedByte(byte) => {
                let mut message = String::from_str("Unexpected byte '");
                message.push(*byte as char);
                message.append("' (0x");
                push_hex_pair(&mut message, *byte);
                message.append(")");
                ParseError(message)
            },
            DecodeFailure::IntegerUnterminated => ParseError(
                String::from_str("Integer: missing 'e'"),
            ),
            DecodeFailure::IntegerMalformed => ParseError(String::from_str("Integer: bad format")),
            DecodeFailure::LengthUnterminated => ParseError(
                String::from_str("String: missing ':'"),
            ),
            DecodeFailure::LengthMalformed => ParseError(String::from_str("String: bad length")),
            DecodeFailure::Truncated { needed, available } => {
                let mut message = String::from_str("String: expected ");
                push_decimal(&mut message, *needed as u64);
                message.append(" bytes but only ");
                push_decimal(&mut message, *available as u64);
                message.append(" available");
                ParseError(message)
            },
            DecodeFailure::ListUnterminated => ParseError(String::from_str("List: missing 'e'")),
            DecodeFailure::DictUnterminated => ParseError(
                String::from_str("Dictionary: missing 'e'"),
            ),
            DecodeFailure::KeyNotBytes => ParseError(
                String::from_str("Dictionary: key must be byte string"),
            ),
            DecodeFailure::MissingValue => ParseError(String::from_str("Dictionary: missing value")),
            DecodeFailure::TooDeep => ParseError(String::from_str("Nesting too deep")),
        }
    }
}

} // verus!

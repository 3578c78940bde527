//! What can go wrong while a regex is built.

use crate::text;
use crate::text::push_hex2;
use vstd::prelude::*;

verus! {

/// Why a regex could not be built.
#[derive(Debug)]
pub enum Error {
    /// Two different escape sequences for the same byte.
    ConflictingEscapeSequences(u8),
    /// A range of bytes whose start is above its end.
    InvalidByteRange(u8, u8),
    /// A byte that has to be escaped, lies outside of the ranges of the fallback, and has no
    /// escape sequence.
    UnrepresentableByte(u8),
    /// A byte that names no kind of JSON escape.
    InvalidAllowedEscape(u8),
    /// A reference to an expression that was not built here.
    InvalidRef,
    /// A multiple of zero.
    InvalidMultipleOf,
    /// A byte set of the wrong number of words.
    InvalidByteSetLen,
    /// A regex whose syntax is not accepted, with the parser's own words.
    Syntax(String),
    /// An anchor, or another condition on the surroundings of a match, where none can stand.
    MisplacedAnchor,
    /// The search for a match was given up.
    OutOfFuel,
}

impl Error {
    /// What the error says.
    pub open spec fn text(&self) -> Seq<char> {
        match self {
            Error::ConflictingEscapeSequences(b) => "conflicting escape_sequences for byte 0x"@
                + text::hex2(*b),
            Error::InvalidByteRange(lo, hi) => "invalid valid_byte_ranges entry: start 0x"@
                + text::hex2(*lo) + " > end 0x"@ + text::hex2(*hi),
            Error::UnrepresentableByte(b) => "fallback cannot represent byte 0x"@ + text::hex2(*b)
                + " (outside valid_byte_ranges); add an explicit escape_sequence for it"@,
            Error::InvalidAllowedEscape(b) => "invalid escape character in allowed_escapes: "@.push(
                *b as char,
            ),
            Error::InvalidRef => "invalid ref"@,
            Error::InvalidMultipleOf => "invalid multiple of"@,
            Error::InvalidByteSetLen => "invalid byteset len"@,
            Error::Syntax(t) => t@,
            Error::MisplacedAnchor => "anchors are only supported at the start and end of regex"@,
            Error::OutOfFuel => "maximum fuel exhausted"@,
        }
    }

    /// What the error says.
    pub fn message(&self) -> (r: String)
        ensures
            r@ == self.text(),
    {
        let mut r: String = String::new();
        match self {
            Error::ConflictingEscapeSequences(b) => {
                r.push_str("conflicting escape_sequences for byte 0x");
                push_hex2(&mut r, *b);
            },
            Error::InvalidByteRange(lo, hi) => {
                r.push_str("invalid valid_byte_ranges entry: start 0x");
                push_hex2(&mut r, *lo);
                r.push_str(" > end 0x");
                push_hex2(&mut r, *hi);
            },
            Error::UnrepresentableByte(b) => {
                r.push_str("fallback cannot represent byte 0x");
                push_hex2(&mut r, *b);
                r.push_str(" (outside valid_byte_ranges); add an explicit escape_sequence for it");
            },
            Error::InvalidAllowedEscape(b) => {
                r.push_str("invalid escape character in allowed_escapes: ");
                r.push(*b as char);
            },
            Error::InvalidRef => r.push_str("invalid ref"),
            Error::InvalidMultipleOf => r.push_str("invalid multiple of"),
            Error::InvalidByteSetLen => r.push_str("invalid byteset len"),
            Error::Syntax(t) => r.push_str(t.as_str()),
            Error::MisplacedAnchor => r.push_str(
                "anchors are only supported at the start and end of regex",
            ),
            Error::OutOfFuel => r.push_str("maximum fuel exhausted"),
        }
        assert(r@ =~= self.text());
        r
    }
}

} // verus!

//! The failure vocabulary of the two pipeline stages.
//!
//! Each stage has its own structured kind enumeration; a lexer error
//! that escapes parsing is wrapped unchanged into the parse-level
//! taxonomy. Errors are pure data: kind plus minimal context.

use vstd::prelude::*;
use crate::text::push_char;

verus! {

/// The ways in which turning JSON text into tokens can fail.
#[derive(Clone, Copy, Debug, PartialEq, Eq, Structural)]
pub enum LexErrorKind {
    /// A character that no JSON construct can begin with, a control
    /// character inside a string, or an invalid escape.
    InvalidChar(char),
    /// The closing quotation mark of a string was never found.
    NonQuotationMark,
    /// A minus sign was not followed by a digit.
    NotDigit,
    /// A decimal point was not followed by a digit.
    NonFracDigit,
    /// An invalid character followed a reverse solidus.
    NotEscapeChar,
    /// A `\u` escape was not followed by exactly four hex digits.
    ParseError,
}

/// An error from the lexing stage, carrying its kind.
#[derive(Clone, Copy, Debug, PartialEq, Eq, Structural)]
pub struct JsonLexerError {
    pub kind: LexErrorKind,
}

/// The human-readable message of a lexer failure.
pub open spec fn lex_error_message(k: LexErrorKind) -> Seq<char> {
    match k {
        LexErrorKind::InvalidChar(c) => "invalid character '"@ + seq![c] + "' found in JSON"@,
        LexErrorKind::NonQuotationMark => "cannot find a pair of quotation marks in JSON string"@,
        LexErrorKind::NotDigit => "cannot find any digit after minus sign"@,
        LexErrorKind::NonFracDigit => "cannot find any digit after decimal point"@,
        LexErrorKind::NotEscapeChar => "invalid character found after reverse solidus"@,
        LexErrorKind::ParseError => "cannot read four hex digits after unicode escape"@,
    }
}

impl JsonLexerError {
    /// The kind of failure this error reports.
    pub fn kind(&self) -> (k: &LexErrorKind)
        ensures
            *k == self.kind,
    {
        &self.kind
    }

    /// A human-readable description of this error.
    pub fn message(&self) -> (r: String)
        ensures
            r@ == lex_error_message(self.kind),
    {
        match self.kind {
            LexErrorKind::InvalidChar(c) => {
                let mut s = String::from_str("invalid character '");
                push_char(&mut s, c);
                s.append("' found in JSON");
                proof {
                    assert(s@ =~= lex_error_message(self.kind));
                }
                s
            },
            LexErrorKind::NonQuotationMark => String::from_str(
                "cannot find a pair of quotation marks in JSON string",
            ),
            LexErrorKind::NotDigit => String::from_str("cannot find any digit after minus sign"),
            LexErrorKind::NonFracDigit => String::from_str(
                "cannot find any digit after decimal point",
            ),
            LexErrorKind::NotEscapeChar => String::from_str(
                "invalid character found after reverse solidus",
            ),
            LexErrorKind::ParseError => String::from_str(
                "cannot read four hex digits after unicode escape",
            ),
        }
    }
}

/// The ways in which turning tokens into a value tree can fail.
#[derive(Clone, Copy, Debug, PartialEq, Eq, Structural)]
pub enum ParseErrorKind {
    /// A token that cannot stand at the current position, or more than
    /// one top-level value.
    InvalidToken,
    /// A value was expected but none was found.
    NonValue,
    /// An object was opened but never closed.
    NonEndObject,
    /// An array was opened but never closed.
    NonEndArray,
    /// An object member was expected but no name was found.
    NoObjectName,
    /// `\uXXXX` escapes formed an invalid UTF-16 sequence.
    FromUtf16Error,
    /// A number token does not form valid numeric text.
    ParseFloatError,
    /// A lexer error propagated unchanged.
    LexError(JsonLexerError),
}

/// An error from the parsing stage, carrying its kind.
#[derive(Clone, Copy, Debug, PartialEq, Eq, Structural)]
pub struct JsonParseError {
    pub kind: ParseErrorKind,
}

/// The human-readable message of a parser failure.
pub open spec fn parse_error_message(k: ParseErrorKind) -> Seq<char> {
    match k {
        ParseErrorKind::InvalidToken => "invalid token found in JSON"@,
        ParseErrorKind::NonValue => "expected some value, but cannot find any JSON value"@,
        ParseErrorKind::NonEndObject => "expected end of object, but cannot find any right curly bracket"@,
        ParseErrorKind::NonEndArray => "expected end of array, but cannot find any right square bracket"@,
        ParseErrorKind::NoObjectName => "cannot find any object name"@,
        ParseErrorKind::FromUtf16Error => "unicode escapes form an invalid UTF-16 sequence"@,
        ParseErrorKind::ParseFloatError => "number token does not form valid numeric text"@,
        ParseErrorKind::LexError(e) => lex_error_message(e.kind),
    }
}

impl JsonParseError {
    /// The kind of failure this error reports.
    pub fn kind(&self) -> (k: &ParseErrorKind)
        ensures
            *k == self.kind,
    {
        &self.kind
    }

    /// A human-readable description of this error.
    pub fn message(&self) -> (r: String)
        ensures
            r@ == parse_error_message(self.kind),
    {
        match self.kind {
            ParseErrorKind::InvalidToken => String::from_str("invalid token found in JSON"),
            ParseErrorKind::NonValue => String::from_str(
                "expected some value, but cannot find any JSON value",
            ),
            ParseErrorKind::NonEndObject => String::from_str(
                "expected end of object, but cannot find any right curly bracket",
            ),
            ParseErrorKind::NonEndArray => String::from_str(
                "expected end of array, but cannot find any right square bracket",
            ),
            ParseErrorKind::NoObjectName => String::from_str("cannot find any object name"),
            ParseErrorKind::FromUtf16Error => String::from_str(
                "unicode escapes form an invalid UTF-16 sequence",
            ),
            ParseErrorKind::ParseFloatError => String::from_str(
                "number token does not form valid numeric text",
            ),
            ParseErrorKind::LexError(e) => e.message(),
        }
    }
}

} // verus!

//! What the parsers report when they cannot go on.
use crate::token::{SpecToken, Token, TokenKind};
use vstd::prelude::*;

verus! {

/// A reason to reject a token stream.
#[derive(Clone, Debug, PartialEq)]
pub enum ParseError {
    /// The tokens ran out ("Tokenstream ended early").
    EndedEarly,
    /// The tokens ran out ("Tokenstream ended too early").
    EndedTooEarly,
    /// A token of the `expected` variant was required.
    Expected { expected: TokenKind, found: Token },
    /// The opening delimiter `expected` was required.
    ExpectedOpening { expected: Token, found: Token },
    /// The closing delimiter `expected` or a comma was required.
    ExpectedClosingOrComma { expected: Token, found: Token },
    /// A declaration or assignment was given `;` as its value.
    MissingValue,
    /// A function argument's type came without a name before it.
    MissingArgumentName,
    /// An enum member of the form `Name(Type)` was not followed by `,` or `}`.
    EnumMemberTerminator,
    /// An enum member name was followed by something other than `,` `(` `{` or `}`.
    EnumMemberStart,
}

/// A token stream that the parsers do not handle (the parse stops there).
#[derive(Clone, Debug, PartialEq)]
pub enum Panic {
    /// A token that starts no construct the parser knows.
    NotImplemented(Token),
    /// A construct that is announced but has no parser.
    Unimplemented,
    /// A string token whose index is outside the string store.
    StringIndexOutOfRange(usize),
}

/// Why a parse stopped without a value.
#[derive(Clone, Debug, PartialEq)]
pub enum Halt {
    Error(ParseError),
    Panic(Panic),
}

pub enum SpecParseError {
    EndedEarly,
    EndedTooEarly,
    Expected { expected: TokenKind, found: SpecToken },
    ExpectedOpening { expected: SpecToken, found: SpecToken },
    ExpectedClosingOrComma { expected: SpecToken, found: SpecToken },
    MissingValue,
    MissingArgumentName,
    EnumMemberTerminator,
    EnumMemberStart,
}

pub enum SpecPanic {
    NotImplemented(SpecToken),
    Unimplemented,
    StringIndexOutOfRange(usize),
}

/// Why a parse stopped without a value. `Stuck` marks a step that would
/// consume no token; the parsers' contracts show that it never happens.
pub enum SpecHalt {
    Error(SpecParseError),
    Panic(SpecPanic),
    Stuck,
}

impl View for ParseError {
    type V = SpecParseError;

    open spec fn view(&self) -> SpecParseError {
        match self {
            ParseError::EndedEarly => SpecParseError::EndedEarly,
            ParseError::EndedTooEarly => SpecParseError::EndedTooEarly,
            ParseError::Expected { expected, found } => SpecParseError::Expected { expected: *expected, found: found@ },
            ParseError::ExpectedOpening { expected, found } => SpecParseError::ExpectedOpening { expected: expected@, found: found@ },
            ParseError::ExpectedClosingOrComma { expected, found } => SpecParseError::ExpectedClosingOrComma { expected: expected@, found: found@ },
            ParseError::MissingValue => SpecParseError::MissingValue,
            ParseError::MissingArgumentName => SpecParseError::MissingArgumentName,
            ParseError::EnumMemberTerminator => SpecParseError::EnumMemberTerminator,
            ParseError::EnumMemberStart => SpecParseError::EnumMemberStart,
        }
    }
}

impl View for Panic {
    type V = SpecPanic;

    open spec fn view(&self) -> SpecPanic {
        match self {
            Panic::NotImplemented(t) => SpecPanic::NotImplemented(t@),
            Panic::Unimplemented => SpecPanic::Unimplemented,
            Panic::StringIndexOutOfRange(i) => SpecPanic::StringIndexOutOfRange(*i),
        }
    }
}

impl View for Halt {
    type V = SpecHalt;

    open spec fn view(&self) -> SpecHalt {
        match self {
            Halt::Error(e) => SpecHalt::Error(e@),
            Halt::Panic(p) => SpecHalt::Panic(p@),
        }
    }
}

/// Whether a parse result stops on something other than a parse error.
pub open spec fn halts_otherwise<T>(r: Result<T, SpecHalt>) -> bool {
    r matches Err(h) && !(h is Error)
}

/// The text "Tokenstream ended too early".
pub fn eof() -> (r: String)
    ensures
        r@ == "Tokenstream ended too early"@,
{
    String::from_str("Tokenstream ended too early")
}

} // verus!

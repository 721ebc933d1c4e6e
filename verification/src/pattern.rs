//! Matching the first token of a token slice against an expected variant.
use crate::error::{Halt, ParseError, SpecHalt, SpecParseError};
use crate::token::{kind_of, tokens_view, SpecToken, Token, TokenKind};
use vstd::prelude::*;
use vstd::slice::slice_subrange;

verus! {

/// The first token has the variant `kind`: the tokens after it.
pub open spec fn expect_spec(toks: Seq<SpecToken>, kind: TokenKind) -> Result<Seq<SpecToken>, SpecHalt> {
    if toks.len() == 0 {
        Err(SpecHalt::Error(SpecParseError::EndedTooEarly))
    } else if kind_of(toks[0]) == kind {
        Ok(toks.skip(1))
    } else {
        Err(SpecHalt::Error(SpecParseError::Expected { expected: kind, found: toks[0] }))
    }
}

/// The first token is an identifier: the tokens after it and its name.
pub open spec fn expect_ident_spec(toks: Seq<SpecToken>) -> Result<(Seq<SpecToken>, Seq<char>), SpecHalt> {
    if toks.len() == 0 {
        Err(SpecHalt::Error(SpecParseError::EndedTooEarly))
    } else {
        match toks[0] {
            SpecToken::Ident(name) => Ok((toks.skip(1), name)),
            t => Err(SpecHalt::Error(SpecParseError::Expected { expected: TokenKind::Ident, found: t })),
        }
    }
}

/// The first token is a string: the tokens after it and its index.
pub open spec fn expect_string_spec(toks: Seq<SpecToken>) -> Result<(Seq<SpecToken>, usize), SpecHalt> {
    if toks.len() == 0 {
        Err(SpecHalt::Error(SpecParseError::EndedTooEarly))
    } else {
        match toks[0] {
            SpecToken::StringIndex(i) => Ok((toks.skip(1), i)),
            t => Err(SpecHalt::Error(SpecParseError::Expected { expected: TokenKind::StringIndex, found: t })),
        }
    }
}

/// The tokens without the first `n`.
pub fn rest_after<'a>(tokens: &'a [Token], n: usize) -> (r: &'a [Token])
    requires
        n <= tokens@.len(),
    ensures
        tokens_view(r@) == tokens_view(tokens@).skip(n as int),
        r@.len() == tokens@.len() - n,
{
    let r = slice_subrange(tokens, n, tokens.len());
    assert(tokens_view(r@) =~= tokens_view(tokens@).skip(n as int));
    r
}

/// Requires the first token to have the variant `kind`.
pub fn expect<'a>(tokens: &'a [Token], kind: TokenKind) -> (r: Result<&'a [Token], Halt>)
    ensures
        match r {
            Ok(rest) => expect_spec(tokens_view(tokens@), kind) == Ok::<Seq<SpecToken>, SpecHalt>(tokens_view(rest@))
                && rest@.len() + 1 == tokens@.len(),
            Err(h) => expect_spec(tokens_view(tokens@), kind) == Err::<Seq<SpecToken>, SpecHalt>(h@),
        },
{
    if tokens.len() == 0 {
        return Err(Halt::Error(ParseError::EndedTooEarly));
    }
    if tokens[0].kind() == kind {
        Ok(rest_after(tokens, 1))
    } else {
        Err(Halt::Error(ParseError::Expected { expected: kind, found: tokens[0].copy() }))
    }
}

/// Requires the first token to be an identifier.
pub fn expect_ident<'a>(tokens: &'a [Token]) -> (r: Result<(&'a [Token], &'a String), Halt>)
    ensures
        match r {
            Ok((rest, name)) => expect_ident_spec(tokens_view(tokens@))
                == Ok::<(Seq<SpecToken>, Seq<char>), SpecHalt>((tokens_view(rest@), name@))
                && rest@.len() + 1 == tokens@.len(),
            Err(h) => expect_ident_spec(tokens_view(tokens@)) == Err::<(Seq<SpecToken>, Seq<char>), SpecHalt>(h@),
        },
{
    if tokens.len() == 0 {
        return Err(Halt::Error(ParseError::EndedTooEarly));
    }
    match &tokens[0] {
        Token::Ident(name) => Ok((rest_after(tokens, 1), name)),
        t => Err(Halt::Error(ParseError::Expected { expected: TokenKind::Ident, found: t.copy() })),
    }
}

/// Requires the first token to be a string.
pub fn expect_string<'a>(tokens: &'a [Token]) -> (r: Result<(&'a [Token], usize), Halt>)
    ensures
        match r {
            Ok((rest, i)) => expect_string_spec(tokens_view(tokens@))
                == Ok::<(Seq<SpecToken>, usize), SpecHalt>((tokens_view(rest@), i))
                && rest@.len() + 1 == tokens@.len(),
            Err(h) => expect_string_spec(tokens_view(tokens@)) == Err::<(Seq<SpecToken>, usize), SpecHalt>(h@),
        },
{
    if tokens.len() == 0 {
        return Err(Halt::Error(ParseError::EndedTooEarly));
    }
    match &tokens[0] {
        Token::StringIndex(i) => Ok((rest_after(tokens, 1), *i)),
        t => Err(Halt::Error(ParseError::Expected { expected: TokenKind::StringIndex, found: t.copy() })),
    }
}

} // verus!

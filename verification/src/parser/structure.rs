//! Delimited, comma-separated lists of values, types and named types.
use crate::error::{halts_otherwise, Halt, ParseError, SpecHalt, SpecParseError};
use crate::parser::type_expressions::{type_expr_spec, type_exprs_view, SpecTypeExpr, TypeExpr};
use crate::parser::{
    consumes, exprs_view, named_types_view, parse_spec, pattern_ident_spec, pattern_spec, skip, step_view,
    too_early, NamedTypeTuple, Parser, SpecExpr, SpecParser, Step, TypeTuple, ValueTuple,
};
use crate::token::{SpecToken, Token, TokenKind};
use vstd::prelude::*;

verus! {

/// After a value or type: the closing token `close`, a comma and more, or an error.
pub open spec fn closing_spec(p: SpecParser, close: SpecToken) -> Result<bool, SpecHalt> {
    if p.tokens.len() == 0 {
        too_early()
    } else if p.tokens[0] == close {
        Ok(true)
    } else if p.tokens[0] is Comma {
        Ok(false)
    } else {
        Err(SpecHalt::Error(SpecParseError::ExpectedClosingOrComma { expected: close, found: p.tokens[0] }))
    }
}

/// Values after `acc`, separated by commas, up to and including `close`.
pub open spec fn values_spec(p: SpecParser, acc: Seq<SpecExpr>, close: SpecToken) -> Step<Seq<SpecExpr>>
    decreases p.tokens.len(), 6nat,
{
    match parse_spec(p) {
        Err(h) => Err(h),
        Ok((e, q)) => {
            if q.tokens.len() < p.tokens.len() {
                match closing_spec(q, close) {
                    Err(h) => Err(h),
                    Ok(true) => Ok((acc.push(e), skip(q, 1))),
                    Ok(false) => values_spec(skip(q, 1), acc.push(e), close),
                }
            } else {
                Err(SpecHalt::Stuck)
            }
        },
    }
}

/// `open`, then `)` for no values, or values separated by commas up to `close`.
pub open spec fn delimitered_spec(p: SpecParser, open: SpecToken, close: SpecToken) -> Step<Seq<SpecExpr>>
    decreases p.tokens.len(), 3nat,
{
    if p.tokens.len() == 0 {
        too_early()
    } else if p.tokens[0] == open {
        let q = skip(p, 1);
        if q.tokens.len() == 0 {
            too_early()
        } else if q.tokens[0] is RParen {
            Ok((Seq::empty(), skip(q, 1)))
        } else {
            values_spec(q, Seq::empty(), close)
        }
    } else {
        Err(SpecHalt::Error(SpecParseError::ExpectedOpening { expected: open, found: p.tokens[0] }))
    }
}

/// `name: type` entries after `acc`, separated by commas, up to and including `close`.
pub open spec fn named_spec(p: SpecParser, acc: Seq<(Seq<char>, SpecTypeExpr)>, close: SpecToken) -> Step<Seq<(Seq<char>, SpecTypeExpr)>>
    decreases p.tokens.len(),
{
    match pattern_ident_spec(p) {
        Err(h) => Err(h),
        Ok((name, p1)) => match pattern_spec(p1, TokenKind::Colon) {
            Err(h) => Err(h),
            Ok(p2) => match type_expr_spec(p2) {
                Err(h) => Err(h),
                Ok((t, q)) => {
                    if q.tokens.len() < p.tokens.len() {
                        match closing_spec(q, close) {
                            Err(h) => Err(h),
                            Ok(true) => Ok((acc.push((name, t)), skip(q, 1))),
                            Ok(false) => named_spec(skip(q, 1), acc.push((name, t)), close),
                        }
                    } else {
                        Err(SpecHalt::Stuck)
                    }
                },
            },
        },
    }
}

/// `open`, then `)` for no entries, or `name: type` entries up to `close`.
pub open spec fn named_delimitered_spec(p: SpecParser, open: SpecToken, close: SpecToken) -> Step<Seq<(Seq<char>, SpecTypeExpr)>> {
    if p.tokens.len() == 0 {
        too_early()
    } else if p.tokens[0] == open {
        let q = skip(p, 1);
        if q.tokens.len() == 0 {
            too_early()
        } else if q.tokens[0] is RParen {
            Ok((Seq::empty(), skip(q, 1)))
        } else {
            named_spec(q, Seq::empty(), close)
        }
    } else {
        Err(SpecHalt::Error(SpecParseError::ExpectedOpening { expected: open, found: p.tokens[0] }))
    }
}

/// Types after `acc`, separated by commas, up to and including `close`.
pub open spec fn types_spec(p: SpecParser, acc: Seq<SpecTypeExpr>, close: SpecToken) -> Step<Seq<SpecTypeExpr>>
    decreases p.tokens.len(), 3nat,
{
    match type_expr_spec(p) {
        Err(h) => Err(h),
        Ok((t, q)) => {
            if q.tokens.len() < p.tokens.len() {
                match closing_spec(q, close) {
                    Err(h) => Err(h),
                    Ok(true) => Ok((acc.push(t), skip(q, 1))),
                    Ok(false) => types_spec(skip(q, 1), acc.push(t), close),
                }
            } else {
                Err(SpecHalt::Stuck)
            }
        },
    }
}

/// `open`, then `)` for no types, or types separated by commas up to `close`.
pub open spec fn typed_delimitered_spec(p: SpecParser, open: SpecToken, close: SpecToken) -> Step<Seq<SpecTypeExpr>>
    decreases p.tokens.len(), 1nat,
{
    if p.tokens.len() == 0 {
        too_early()
    } else if p.tokens[0] == open {
        let q = skip(p, 1);
        if q.tokens.len() == 0 {
            too_early()
        } else if q.tokens[0] is RParen {
            Ok((Seq::empty(), skip(q, 1)))
        } else {
            types_spec(q, Seq::empty(), close)
        }
    } else {
        Err(SpecHalt::Error(SpecParseError::ExpectedOpening { expected: open, found: p.tokens[0] }))
    }
}

impl<'a> Parser<'a> {
    /// After a value or type: whether the closing token `close` (true) or a
    /// comma (false) comes next.
    fn closing(&self, close: &Token) -> (r: Result<bool, Halt>)
        ensures
            match r {
                Ok(b) => closing_spec(self@, close@) == Ok::<bool, SpecHalt>(b),
                Err(h) => closing_spec(self@, close@) == Err::<bool, SpecHalt>(h@),
            },
            r matches Ok(_) ==> self.tokens@.len() > 0,
    {
        if self.tokens.len() == 0 {
            return Err(Halt::Error(ParseError::EndedTooEarly));
        }
        if self.tokens[0].same(close) {
            Ok(true)
        } else if self.tokens[0].kind() == TokenKind::Comma {
            Ok(false)
        } else {
            Err(Halt::Error(ParseError::ExpectedClosingOrComma { expected: close.copy(), found: self.tokens[0].copy() }))
        }
    }

    fn parse_values(self, acc: ValueTuple, close: Token) -> (r: Result<(ValueTuple, Parser<'a>), Halt>)
        ensures
            step_view(r) == values_spec(self@, acc@, close@),
            consumes(r, self),
        decreases self.tokens@.len(), 6nat,
    {
        let (e, q) = self.parse_checked()?;
        let mut items = acc.0;
        let ghost before = items@;
        items.push(e);
        assert(items@.drop_last() =~= before);
        if q.closing(&close)? {
            Ok((ValueTuple(items), q.skip(1)))
        } else {
            q.skip(1).parse_values(ValueTuple(items), close)
        }
    }

    pub(crate) fn parse_delimitered(self, delimiters: (Token, Token)) -> (r: Result<(ValueTuple, Parser<'a>), Halt>)
        ensures
            step_view(r) == delimitered_spec(self@, delimiters.0@, delimiters.1@),
            consumes(r, self),
        decreases self.tokens@.len(), 3nat,
    {
        if self.tokens.len() == 0 {
            return Err(Halt::Error(ParseError::EndedTooEarly));
        }
        if self.tokens[0].same(&delimiters.0) {
            let q = self.skip(1);
            if q.tokens.len() == 0 {
                return Err(Halt::Error(ParseError::EndedTooEarly));
            }
            if q.tokens[0].kind() == TokenKind::RParen {
                Ok((ValueTuple(Vec::new()), q.skip(1)))
            } else {
                q.parse_values(ValueTuple(Vec::new()), delimiters.1)
            }
        } else {
            Err(Halt::Error(ParseError::ExpectedOpening { expected: delimiters.0, found: self.tokens[0].copy() }))
        }
    }

    fn parse_named(self, acc: NamedTypeTuple, close: Token) -> (r: Result<(NamedTypeTuple, Parser<'a>), Halt>)
        ensures
            step_view(r) == named_spec(self@, acc@, close@),
            consumes(r, self),
        decreases self.tokens@.len(),
    {
        let (name, p1) = self.pattern_ident()?;
        let p2 = p1.pattern(TokenKind::Colon)?;
        let (t, q) = p2.parse_type_expr()?;
        let mut items = acc.0;
        let ghost before = items@;
        let ghost entry = (name@, t@);
        items.push((name, t));
        assert(named_types_view(items@) =~= named_types_view(before).push(entry));
        if q.closing(&close)? {
            Ok((NamedTypeTuple(items), q.skip(1)))
        } else {
            q.skip(1).parse_named(NamedTypeTuple(items), close)
        }
    }

    pub(crate) fn parse_named_typed_delimitered(self, delimiters: (Token, Token)) -> (r: Result<(NamedTypeTuple, Parser<'a>), Halt>)
        ensures
            step_view(r) == named_delimitered_spec(self@, delimiters.0@, delimiters.1@),
            consumes(r, self),
    {
        if self.tokens.len() == 0 {
            return Err(Halt::Error(ParseError::EndedTooEarly));
        }
        if self.tokens[0].same(&delimiters.0) {
            let q = self.skip(1);
            if q.tokens.len() == 0 {
                return Err(Halt::Error(ParseError::EndedTooEarly));
            }
            if q.tokens[0].kind() == TokenKind::RParen {
                assert(named_types_view(Seq::<(String, TypeExpr)>::empty()) =~= Seq::empty());
                Ok((NamedTypeTuple(Vec::new()), q.skip(1)))
            } else {
                assert(named_types_view(Seq::<(String, TypeExpr)>::empty()) =~= Seq::empty());
                q.parse_named(NamedTypeTuple(Vec::new()), delimiters.1)
            }
        } else {
            Err(Halt::Error(ParseError::ExpectedOpening { expected: delimiters.0, found: self.tokens[0].copy() }))
        }
    }

    fn parse_types(self, acc: TypeTuple, close: Token) -> (r: Result<(TypeTuple, Parser<'a>), Halt>)
        ensures
            step_view(r) == types_spec(self@, acc@, close@),
            consumes(r, self),
        decreases self.tokens@.len(), 3nat,
    {
        let (t, q) = self.parse_type_expr()?;
        let mut items = acc.0;
        let ghost before = items@;
        items.push(t);
        assert(items@.drop_last() =~= before);
        if q.closing(&close)? {
            Ok((TypeTuple(items), q.skip(1)))
        } else {
            q.skip(1).parse_types(TypeTuple(items), close)
        }
    }

    /// `open`, then `)` for no types, or types separated by commas up to
    /// `close`; stops without a value on a parse error or on a type that the
    /// parser does not handle.
    pub fn parse_typed_delimitered_checked(self, delimiters: (Token, Token)) -> (r: Result<(TypeTuple, Parser<'a>), Halt>)
        ensures
            step_view(r) == typed_delimitered_spec(self@, delimiters.0@, delimiters.1@),
            consumes(r, self),
        decreases self.tokens@.len(), 1nat,
    {
        if self.tokens.len() == 0 {
            return Err(Halt::Error(ParseError::EndedTooEarly));
        }
        if self.tokens[0].same(&delimiters.0) {
            let q = self.skip(1);
            if q.tokens.len() == 0 {
                return Err(Halt::Error(ParseError::EndedTooEarly));
            }
            if q.tokens[0].kind() == TokenKind::RParen {
                Ok((TypeTuple(Vec::new()), q.skip(1)))
            } else {
                q.parse_types(TypeTuple(Vec::new()), delimiters.1)
            }
        } else {
            Err(Halt::Error(ParseError::ExpectedOpening { expected: delimiters.0, found: self.tokens[0].copy() }))
        }
    }

    /// `open`, then `)` for no types, or types separated by commas up to
    /// `close`.
    ///
    /// Every type in the list must be one that the parser handles.
    pub fn parse_typed_delimitered(self, delimiters: (Token, Token)) -> (r: Result<(TypeTuple, Parser<'a>), ParseError>)
        requires
            !halts_otherwise(typed_delimitered_spec(self@, delimiters.0@, delimiters.1@)),
        ensures
            match r {
                Ok((ts, q)) => typed_delimitered_spec(self@, delimiters.0@, delimiters.1@)
                    == Ok::<(Seq<SpecTypeExpr>, SpecParser), SpecHalt>((ts@, q@)),
                Err(err) => typed_delimitered_spec(self@, delimiters.0@, delimiters.1@)
                    == Err::<(Seq<SpecTypeExpr>, SpecParser), SpecHalt>(SpecHalt::Error(err@)),
            },
    {
        match self.parse_typed_delimitered_checked(delimiters) {
            Ok(v) => Ok(v),
            Err(Halt::Error(e)) => Err(e),
            Err(Halt::Panic(_)) => Err(ParseError::EndedTooEarly),
        }
    }
}

} // verus!

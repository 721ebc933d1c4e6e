//! Strings, calls, function definitions and blocks.
use crate::error::{Halt, Panic, ParseError, SpecHalt, SpecPanic};
use crate::parser::structure::{delimitered_spec, named_delimitered_spec};
use crate::parser::type_expressions::{type_expr_spec, SpecTypeExpr, TypeExpr};
use crate::parser::{
    consumes, exprs_view, parse_spec, pattern_ident_spec, pattern_spec, pattern_string_spec, skip,
    step_view, too_early, Expr, Parser, SpecExpr, SpecParser, Step, ValueTuple,
};
use crate::token::{strings_view, SpecToken, Token, TokenKind};
use vstd::prelude::*;

verus! {

/// A string literal: its text is taken out of the store, which keeps an empty
/// string in its place.
pub open spec fn string_spec(p: SpecParser) -> Step<SpecExpr>
    decreases p.tokens.len(), 4nat,
{
    match pattern_string_spec(p) {
        Ok((id, q)) => {
            if id < q.store.len() {
                Ok((SpecExpr::String(q.store[id as int]), SpecParser { tokens: q.tokens, store: q.store.update(id as int, Seq::empty()) }))
            } else {
                Err(SpecHalt::Panic(SpecPanic::StringIndexOutOfRange(id)))
            }
        },
        Err(h) => Err(h),
    }
}

/// A semicolon.
pub open spec fn semicolon_spec(p: SpecParser) -> Step<SpecExpr>
    decreases p.tokens.len(), 4nat,
{
    match pattern_spec(p, TokenKind::SemiColon) {
        Ok(q) => Ok((SpecExpr::Execute, q)),
        Err(h) => Err(h),
    }
}

/// An identifier: only a call (an identifier and `(`) is handled.
pub open spec fn ident_spec(p: SpecParser) -> Step<SpecExpr>
    decreases p.tokens.len(), 4nat,
{
    if p.tokens.len() < 2 {
        too_early()
    } else if p.tokens[1] is LParen {
        call_spec(p)
    } else {
        Err(SpecHalt::Panic(SpecPanic::Unimplemented))
    }
}

/// A call: a name and its arguments between parentheses.
pub open spec fn call_spec(p: SpecParser) -> Step<SpecExpr>
    decreases p.tokens.len(), 3nat,
{
    match pattern_ident_spec(p) {
        Ok((name, q)) => match delimitered_spec(q, SpecToken::LParen, SpecToken::RParen) {
            Ok((arguments, r)) => Ok((SpecExpr::FnCall { name, arguments }, r)),
            Err(h) => Err(h),
        },
        Err(h) => Err(h),
    }
}

/// The return type of a function: a type after `->`, or none.
pub open spec fn return_type_spec(p: SpecParser) -> Step<SpecTypeExpr> {
    if p.tokens.len() == 0 {
        too_early()
    } else if p.tokens[0] is Arrow {
        type_expr_spec(skip(p, 1))
    } else {
        Ok((SpecTypeExpr::Empty, p))
    }
}

/// `fn`, a name, named parameters, an optional return type and a block.
pub open spec fn fn_def_spec(p: SpecParser) -> Step<SpecExpr>
    decreases p.tokens.len(), 4nat,
{
    match pattern_spec(p, TokenKind::Fn) {
        Err(h) => Err(h),
        Ok(p1) => match pattern_ident_spec(p1) {
            Err(h) => Err(h),
            Ok((name, p2)) => match named_delimitered_spec(p2, SpecToken::LParen, SpecToken::RParen) {
                Err(h) => Err(h),
                Ok((arguments, p3)) => match return_type_spec(p3) {
                    Err(h) => Err(h),
                    Ok((return_type, p4)) => {
                        if p4.tokens.len() < p.tokens.len() {
                            match block_spec(p4) {
                                Err(h) => Err(h),
                                Ok((body, p5)) => Ok((SpecExpr::FnDef { name, arguments, return_type, body: Box::new(body) }, p5)),
                            }
                        } else {
                            Err(SpecHalt::Stuck)
                        }
                    },
                },
            },
        },
    }
}

/// `{` and expressions up to a `}`, which is left in place.
pub open spec fn block_spec(p: SpecParser) -> Step<SpecExpr>
    decreases p.tokens.len(), 4nat,
{
    match pattern_spec(p, TokenKind::LBrace) {
        Err(h) => Err(h),
        Ok(q) => match block_items_spec(q, Seq::empty()) {
            Ok((items, r)) => Ok((SpecExpr::Block(items), r)),
            Err(h) => Err(h),
        },
    }
}

/// Expressions after `acc` up to a `}`.
pub open spec fn block_items_spec(p: SpecParser, acc: Seq<SpecExpr>) -> Step<Seq<SpecExpr>>
    decreases p.tokens.len(), 6nat,
{
    if p.tokens.len() == 0 {
        too_early()
    } else if p.tokens[0] is RBrace {
        Ok((acc, p))
    } else {
        match parse_spec(p) {
            Err(h) => Err(h),
            Ok((e, q)) => {
                if q.tokens.len() < p.tokens.len() {
                    block_items_spec(q, acc.push(e))
                } else {
                    Err(SpecHalt::Stuck)
                }
            },
        }
    }
}

impl<'a> Parser<'a> {
    pub(crate) fn parse_string(self) -> (r: Result<(Expr, Parser<'a>), Halt>)
        ensures
            step_view(r) == string_spec(self@),
            consumes(r, self),
    {
        let (id, q) = self.pattern_string()?;
        let ghost before = strings_view(q.string_interning_store@);
        let mut store = q.string_interning_store;
        if id >= store.len() {
            return Err(Halt::Panic(Panic::StringIndexOutOfRange(id)));
        }
        let mut text = String::new();
        std::mem::swap(&mut store[id], &mut text);
        assert(strings_view(store@) =~= before.update(id as int, Seq::empty()));
        Ok((Expr::String(text), Parser { tokens: q.tokens, string_interning_store: store }))
    }

    pub(crate) fn parse_semicolon(self) -> (r: Result<(Expr, Parser<'a>), Halt>)
        ensures
            step_view(r) == semicolon_spec(self@),
            consumes(r, self),
    {
        let q = self.pattern(TokenKind::SemiColon)?;
        Ok((Expr::Execute, q))
    }

    pub(crate) fn parse_ident(self) -> (r: Result<(Expr, Parser<'a>), Halt>)
        ensures
            step_view(r) == ident_spec(self@),
            consumes(r, self),
        decreases self.tokens@.len(), 4nat,
    {
        if self.tokens.len() < 2 {
            return Err(Halt::Error(ParseError::EndedTooEarly));
        }
        match &self.tokens[1] {
            Token::LParen => self.parse_function_call(),
            _ => Err(Halt::Panic(Panic::Unimplemented)),
        }
    }

    pub(crate) fn parse_function_call(self) -> (r: Result<(Expr, Parser<'a>), Halt>)
        ensures
            step_view(r) == call_spec(self@),
            consumes(r, self),
        decreases self.tokens@.len(), 3nat,
    {
        let (name, q) = self.pattern_ident()?;
        let (arguments, r) = q.parse_delimitered((Token::LParen, Token::RParen))?;
        Ok((Expr::FnCall { name, arguments: Box::new(arguments) }, r))
    }

    fn parse_return_type(self) -> (r: Result<(TypeExpr, Parser<'a>), Halt>)
        ensures
            step_view(r) == return_type_spec(self@),
            r matches Ok((_, q)) ==> q.tokens@.len() <= self.tokens@.len(),
    {
        if self.tokens.len() == 0 {
            return Err(Halt::Error(ParseError::EndedTooEarly));
        }
        if self.tokens[0].kind() == TokenKind::Arrow {
            self.skip(1).parse_type_expr()
        } else {
            Ok((TypeExpr::Empty, self))
        }
    }

    pub(crate) fn parse_function_def(self) -> (r: Result<(Expr, Parser<'a>), Halt>)
        ensures
            step_view(r) == fn_def_spec(self@),
            consumes(r, self),
        decreases self.tokens@.len(), 4nat,
    {
        let ghost p = self@;
        let ghost n = self.tokens@.len();
        let p1 = self.pattern(TokenKind::Fn)?;
        let (name, p2) = p1.pattern_ident()?;
        let (arguments, p3) = p2.parse_named_typed_delimitered((Token::LParen, Token::RParen))?;
        let (return_type, p4) = p3.parse_return_type()?;
        let (body, p5) = p4.parse_block()?;
        Ok((Expr::FnDef { name, arguments, return_type, body: Box::new(body) }, p5))
    }

    pub(crate) fn parse_block(self) -> (r: Result<(Expr, Parser<'a>), Halt>)
        ensures
            step_view(r) == block_spec(self@),
            consumes(r, self),
        decreases self.tokens@.len(), 4nat,
    {
        let q = self.pattern(TokenKind::LBrace)?;
        let (items, r) = q.parse_block_items(ValueTuple(Vec::new()))?;
        Ok((Expr::Block(Box::new(items.0)), r))
    }

    fn parse_block_items(self, acc: ValueTuple) -> (r: Result<(ValueTuple, Parser<'a>), Halt>)
        ensures
            step_view(r) == block_items_spec(self@, acc@),
            r matches Ok((_, q)) ==> q.tokens@.len() <= self.tokens@.len(),
        decreases self.tokens@.len(), 6nat,
    {
        if self.tokens.len() == 0 {
            return Err(Halt::Error(ParseError::EndedTooEarly));
        }
        if self.tokens[0].kind() == TokenKind::RBrace {
            return Ok((acc, self));
        }
        let (e, q) = self.parse_checked()?;
        let mut items = acc.0;
        let ghost before = items@;
        items.push(e);
        assert(items@.drop_last() =~= before);
        q.parse_block_items(ValueTuple(items))
    }
}

} // verus!

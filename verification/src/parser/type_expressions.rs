//! Type expressions: names, arrays and function signatures.
use crate::error::{Halt, Panic, ParseError, SpecHalt, SpecPanic};
use crate::parser::structure::typed_delimitered_spec;
use crate::parser::{pattern_ident_spec, pattern_spec, skip, step_view, too_early, Parser, SpecParser, Step, TypeTuple};
use crate::token::{SpecToken, Token, TokenKind};
use vstd::prelude::*;

verus! {

/// A type as written in the source.
#[derive(Debug, PartialEq)]
pub enum TypeExpr {
    Empty,
    Name(String),
    Array(Box<TypeExpr>),
    SizedArray { size: usize, item_type: Box<TypeExpr> },
    FnSignature { arguments: TypeTuple, return_type: Box<TypeExpr> },
}

/// The value of a [`TypeExpr`].
pub enum SpecTypeExpr {
    Empty,
    Name(Seq<char>),
    Array(Box<SpecTypeExpr>),
    SizedArray { size: usize, item_type: Box<SpecTypeExpr> },
    FnSignature { arguments: Seq<SpecTypeExpr>, return_type: Box<SpecTypeExpr> },
}

pub open spec fn type_expr_view(t: TypeExpr) -> SpecTypeExpr
    decreases t,
{
    match t {
        TypeExpr::Empty => SpecTypeExpr::Empty,
        TypeExpr::Name(n) => SpecTypeExpr::Name(n@),
        TypeExpr::Array(inner) => SpecTypeExpr::Array(Box::new(type_expr_view(*inner))),
        TypeExpr::SizedArray { size, item_type } => SpecTypeExpr::SizedArray {
            size,
            item_type: Box::new(type_expr_view(*item_type)),
        },
        TypeExpr::FnSignature { arguments, return_type } => SpecTypeExpr::FnSignature {
            arguments: type_exprs_view(arguments.0@),
            return_type: Box::new(type_expr_view(*return_type)),
        },
    }
}

pub open spec fn type_exprs_view(s: Seq<TypeExpr>) -> Seq<SpecTypeExpr>
    decreases s,
{
    if s.len() == 0 {
        Seq::empty()
    } else {
        type_exprs_view(s.drop_last()).push(type_expr_view(s.last()))
    }
}

impl View for TypeExpr {
    type V = SpecTypeExpr;

    open spec fn view(&self) -> SpecTypeExpr {
        type_expr_view(*self)
    }
}

/// A type, chosen by its first token.
pub open spec fn type_expr_spec(p: SpecParser) -> Step<SpecTypeExpr>
    decreases p.tokens.len(), 2nat,
{
    if p.tokens.len() == 0 {
        too_early()
    } else {
        match p.tokens[0] {
            SpecToken::Ident(_) => type_ident_spec(p),
            SpecToken::Fn => signature_spec(p),
            t => Err(SpecHalt::Panic(SpecPanic::NotImplemented(t))),
        }
    }
}

/// A type name followed by array suffixes.
pub open spec fn type_ident_spec(p: SpecParser) -> Step<SpecTypeExpr>
    decreases p.tokens.len(), 1nat,
{
    match pattern_ident_spec(p) {
        Err(h) => Err(h),
        Ok((name, q)) => Ok(array_suffix_spec(q, name)),
    }
}

/// `[]` (an array) or `[n]` (an array of `n` items) suffixes after the type
/// `name`; the first suffix is the outermost type. `n` is cut to a `usize`.
pub open spec fn array_suffix_spec(p: SpecParser, name: Seq<char>) -> (SpecTypeExpr, SpecParser)
    decreases p.tokens.len(),
{
    if p.tokens.len() >= 2 && p.tokens[0] is LBracket && p.tokens[1] is RBracket {
        let (t, q) = array_suffix_spec(skip(p, 2), name);
        (SpecTypeExpr::Array(Box::new(t)), q)
    } else if p.tokens.len() >= 3 && p.tokens[0] is LBracket && p.tokens[1] is Integer && p.tokens[2] is RBracket {
        let (t, q) = array_suffix_spec(skip(p, 3), name);
        (SpecTypeExpr::SizedArray { size: p.tokens[1]->Integer_0 as usize, item_type: Box::new(t) }, q)
    } else {
        (SpecTypeExpr::Name(name), p)
    }
}

/// `fn`, parameter types, and an optional return type.
pub open spec fn signature_spec(p: SpecParser) -> Step<SpecTypeExpr>
    decreases p.tokens.len(), 1nat,
{
    match pattern_spec(p, TokenKind::Fn) {
        Err(h) => Err(h),
        Ok(p1) => match typed_delimitered_spec(p1, SpecToken::LParen, SpecToken::RParen) {
            Err(h) => Err(h),
            Ok((arguments, p2)) => {
                if p2.tokens.len() < p.tokens.len() {
                    if p2.tokens.len() == 0 {
                        too_early()
                    } else if p2.tokens[0] is Arrow {
                        match type_expr_spec(skip(p2, 1)) {
                            Err(h) => Err(h),
                            Ok((return_type, p3)) => Ok((SpecTypeExpr::FnSignature { arguments, return_type: Box::new(return_type) }, p3)),
                        }
                    } else {
                        Ok((SpecTypeExpr::FnSignature { arguments, return_type: Box::new(SpecTypeExpr::Empty) }, p2))
                    }
                } else {
                    Err(SpecHalt::Stuck)
                }
            },
        },
    }
}

impl<'a> Parser<'a> {
    pub(crate) fn parse_type_expr(self) -> (r: Result<(TypeExpr, Parser<'a>), Halt>)
        ensures
            step_view(r) == type_expr_spec(self@),
            r matches Ok((_, q)) ==> q.tokens@.len() < self.tokens@.len(),
        decreases self.tokens@.len(), 2nat,
    {
        if self.tokens.len() == 0 {
            return Err(Halt::Error(ParseError::EndedTooEarly));
        }
        match &self.tokens[0] {
            Token::Ident(_) => self.parse_type_ident(),
            Token::Fn => self.parse_function_signiture(),
            t => Err(Halt::Panic(Panic::NotImplemented(t.copy()))),
        }
    }

    pub(crate) fn parse_type_ident(self) -> (r: Result<(TypeExpr, Parser<'a>), Halt>)
        ensures
            step_view(r) == type_ident_spec(self@),
            r matches Ok((_, q)) ==> q.tokens@.len() < self.tokens@.len(),
        decreases self.tokens@.len(), 1nat,
    {
        let (name, q) = self.pattern_ident()?;
        Ok(q.parse_array_suffix(name))
    }

    fn parse_array_suffix(self, name: String) -> (r: (TypeExpr, Parser<'a>))
        ensures
            (r.0@, r.1@) == array_suffix_spec(self@, name@),
            r.1.tokens@.len() <= self.tokens@.len(),
        decreases self.tokens@.len(),
    {
        if self.tokens.len() >= 2 && self.tokens[0].kind() == TokenKind::LBracket
            && self.tokens[1].kind() == TokenKind::RBracket {
            let (t, q) = self.skip(2).parse_array_suffix(name);
            (TypeExpr::Array(Box::new(t)), q)
        } else if self.tokens.len() >= 3 && self.tokens[0].kind() == TokenKind::LBracket
            && self.tokens[2].kind() == TokenKind::RBracket {
            match &self.tokens[1] {
                Token::Integer(size) => {
                    let size = *size as usize;
                    let (t, q) = self.skip(3).parse_array_suffix(name);
                    (TypeExpr::SizedArray { size, item_type: Box::new(t) }, q)
                },
                _ => (TypeExpr::Name(name), self),
            }
        } else {
            (TypeExpr::Name(name), self)
        }
    }

    pub(crate) fn parse_function_signiture(self) -> (r: Result<(TypeExpr, Parser<'a>), Halt>)
        ensures
            step_view(r) == signature_spec(self@),
            r matches Ok((_, q)) ==> q.tokens@.len() < self.tokens@.len(),
        decreases self.tokens@.len(), 1nat,
    {
        let p1 = self.pattern(TokenKind::Fn)?;
        let (arguments, p2) = p1.parse_typed_delimitered_checked((Token::LParen, Token::RParen))?;
        if p2.tokens.len() == 0 {
            return Err(Halt::Error(ParseError::EndedTooEarly));
        }
        if p2.tokens[0].kind() == TokenKind::Arrow {
            let (return_type, p3) = p2.skip(1).parse_type_expr()?;
            Ok((TypeExpr::FnSignature { arguments, return_type: Box::new(return_type) }, p3))
        } else {
            assert(type_expr_view(TypeExpr::Empty) == SpecTypeExpr::Empty);
            Ok((TypeExpr::FnSignature { arguments, return_type: Box::new(TypeExpr::Empty) }, p2))
        }
    }
}

} // verus!

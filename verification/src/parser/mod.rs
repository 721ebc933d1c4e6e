//! A recursive-descent parser for function definitions, calls, blocks and
//! strings, over the tokens of [`crate::lexer`].
pub mod expressions;
pub mod laws;
pub mod structure;
pub mod type_expressions;

use crate::error::{Halt, ParseError, Panic, SpecHalt, SpecParseError, SpecPanic, halts_otherwise};
use crate::parser::expressions::{block_spec, fn_def_spec, ident_spec, semicolon_spec, string_spec};
use crate::parser::type_expressions::{type_expr_view, type_exprs_view, SpecTypeExpr, TypeExpr};
use crate::pattern::{expect, expect_ident, expect_ident_spec, expect_spec, expect_string, expect_string_spec, rest_after};
use crate::token::{strings_view, tokens_view, SpecToken, Token, TokenKind};
use vstd::prelude::*;

verus! {

/// Named, typed entries such as a function's parameters.
#[derive(Debug, PartialEq)]
pub struct NamedTypeTuple(pub Vec<(String, TypeExpr)>);

/// Types such as a function signature's parameters.
#[derive(Debug, PartialEq)]
pub struct TypeTuple(pub Vec<TypeExpr>);

/// Values such as a call's arguments.
#[derive(Debug, PartialEq)]
pub struct ValueTuple(pub Vec<Expr>);

/// An expression.
#[derive(Debug, PartialEq)]
pub enum Expr {
    Block(Box<Vec<Expr>>),
    FnDef { name: String, arguments: NamedTypeTuple, return_type: TypeExpr, body: Box<Expr> },
    FnCall { name: String, arguments: Box<ValueTuple> },
    String(String),
    Execute,
}

/// The value of an [`Expr`].
pub enum SpecExpr {
    Block(Seq<SpecExpr>),
    FnDef {
        name: Seq<char>,
        arguments: Seq<(Seq<char>, SpecTypeExpr)>,
        return_type: SpecTypeExpr,
        body: Box<SpecExpr>,
    },
    FnCall { name: Seq<char>, arguments: Seq<SpecExpr> },
    String(Seq<char>),
    Execute,
}

pub open spec fn named_types_view(s: Seq<(String, TypeExpr)>) -> Seq<(Seq<char>, SpecTypeExpr)> {
    s.map_values(|p: (String, TypeExpr)| (p.0@, type_expr_view(p.1)))
}

pub open spec fn expr_view(e: Expr) -> SpecExpr
    decreases e,
{
    match e {
        Expr::Block(items) => SpecExpr::Block(exprs_view(items@)),
        Expr::FnDef { name, arguments, return_type, body } => SpecExpr::FnDef {
            name: name@,
            arguments: named_types_view(arguments.0@),
            return_type: type_expr_view(return_type),
            body: Box::new(expr_view(*body)),
        },
        Expr::FnCall { name, arguments } => SpecExpr::FnCall { name: name@, arguments: exprs_view(arguments.0@) },
        Expr::String(s) => SpecExpr::String(s@),
        Expr::Execute => SpecExpr::Execute,
    }
}

pub open spec fn exprs_view(s: Seq<Expr>) -> Seq<SpecExpr>
    decreases s,
{
    if s.len() == 0 {
        Seq::empty()
    } else {
        exprs_view(s.drop_last()).push(expr_view(s.last()))
    }
}

impl View for Expr {
    type V = SpecExpr;

    open spec fn view(&self) -> SpecExpr {
        expr_view(*self)
    }
}

impl View for ValueTuple {
    type V = Seq<SpecExpr>;

    open spec fn view(&self) -> Seq<SpecExpr> {
        exprs_view(self.0@)
    }
}

impl View for TypeTuple {
    type V = Seq<SpecTypeExpr>;

    open spec fn view(&self) -> Seq<SpecTypeExpr> {
        type_exprs_view(self.0@)
    }
}

impl View for NamedTypeTuple {
    type V = Seq<(Seq<char>, SpecTypeExpr)>;

    open spec fn view(&self) -> Seq<(Seq<char>, SpecTypeExpr)> {
        named_types_view(self.0@)
    }
}

/// The tokens still to parse and the store of string literals.
pub struct Parser<'a> {
    pub tokens: &'a [Token],
    pub string_interning_store: Vec<String>,
}

/// The value of a [`Parser`].
pub struct SpecParser {
    pub tokens: Seq<SpecToken>,
    pub store: Seq<Seq<char>>,
}

impl<'a> View for Parser<'a> {
    type V = SpecParser;

    open spec fn view(&self) -> SpecParser {
        SpecParser { tokens: tokens_view(self.tokens@), store: strings_view(self.string_interning_store@) }
    }
}

/// What a parsing step gives: a value and the parser after it, or why it stopped.
pub type Step<T> = Result<(T, SpecParser), SpecHalt>;

/// The value of a parsing step.
pub open spec fn step_view<'a, T: View>(r: Result<(T, Parser<'a>), Halt>) -> Step<T::V> {
    match r {
        Ok((v, p)) => Ok((v@, p@)),
        Err(h) => Err(h@),
    }
}

/// Whether a step, when it succeeds, leaves fewer tokens than `p` has.
pub open spec fn consumes<'a, T>(r: Result<(T, Parser<'a>), Halt>, p: Parser<'a>) -> bool {
    r matches Ok((_, q)) ==> q.tokens@.len() < p.tokens@.len()
}

/// Running out of tokens.
pub open spec fn too_early<T>() -> Result<T, SpecHalt> {
    Err(SpecHalt::Error(SpecParseError::EndedTooEarly))
}

/// The parser without its first `n` tokens.
pub open spec fn skip(p: SpecParser, n: int) -> SpecParser {
    SpecParser { tokens: p.tokens.skip(n), store: p.store }
}

/// One token of the variant `kind`.
pub open spec fn pattern_spec(p: SpecParser, kind: TokenKind) -> Result<SpecParser, SpecHalt> {
    match expect_spec(p.tokens, kind) {
        Ok(rest) => Ok(SpecParser { tokens: rest, store: p.store }),
        Err(h) => Err(h),
    }
}

/// One identifier: its name.
pub open spec fn pattern_ident_spec(p: SpecParser) -> Step<Seq<char>> {
    match expect_ident_spec(p.tokens) {
        Ok((rest, name)) => Ok((name, SpecParser { tokens: rest, store: p.store })),
        Err(h) => Err(h),
    }
}

/// One string token: its index in the store.
pub open spec fn pattern_string_spec(p: SpecParser) -> Step<usize> {
    match expect_string_spec(p.tokens) {
        Ok((rest, i)) => Ok((i, SpecParser { tokens: rest, store: p.store })),
        Err(h) => Err(h),
    }
}

/// One expression, chosen by its first token.
pub open spec fn parse_spec(p: SpecParser) -> Step<SpecExpr>
    decreases p.tokens.len(), 5nat,
{
    if p.tokens.len() == 0 {
        too_early()
    } else {
        match p.tokens[0] {
            SpecToken::Fn => fn_def_spec(p),
            SpecToken::LBrace => block_spec(p),
            SpecToken::Ident(_) => ident_spec(p),
            SpecToken::StringIndex(_) => string_spec(p),
            SpecToken::SemiColon => semicolon_spec(p),
            t => Err(SpecHalt::Panic(SpecPanic::NotImplemented(t))),
        }
    }
}

impl<'a> Parser<'a> {
    /// The parser without its first `n` tokens.
    pub(crate) fn skip(self, n: usize) -> (r: Parser<'a>)
        requires
            n <= self.tokens@.len(),
        ensures
            r@ == skip(self@, n as int),
            r.tokens@.len() == self.tokens@.len() - n,
    {
        Parser { tokens: rest_after(self.tokens, n), string_interning_store: self.string_interning_store }
    }

    /// One token of the variant `kind`.
    pub(crate) fn pattern(self, kind: TokenKind) -> (r: Result<Parser<'a>, Halt>)
        ensures
            match r {
                Ok(q) => pattern_spec(self@, kind) == Ok::<SpecParser, SpecHalt>(q@)
                    && q.tokens@.len() + 1 == self.tokens@.len(),
                Err(h) => pattern_spec(self@, kind) == Err::<SpecParser, SpecHalt>(h@),
            },
    {
        let tokens = expect(self.tokens, kind)?;
        Ok(Parser { tokens, string_interning_store: self.string_interning_store })
    }

    /// One identifier: its name.
    pub(crate) fn pattern_ident(self) -> (r: Result<(String, Parser<'a>), Halt>)
        ensures
            step_view(r) == pattern_ident_spec(self@),
            r matches Ok((_, q)) ==> q.tokens@.len() + 1 == self.tokens@.len(),
    {
        let (tokens, name) = expect_ident(self.tokens)?;
        Ok((name.clone(), Parser { tokens, string_interning_store: self.string_interning_store }))
    }

    /// One string token: its index in the store.
    pub(crate) fn pattern_string(self) -> (r: Result<(usize, Parser<'a>), Halt>)
        ensures
            step_view(r) == pattern_string_spec(self@),
            r matches Ok((_, q)) ==> q.tokens@.len() + 1 == self.tokens@.len(),
    {
        let (tokens, id) = expect_string(self.tokens)?;
        Ok((id, Parser { tokens, string_interning_store: self.string_interning_store }))
    }

    /// One expression, chosen by its first token; stops without a value on a
    /// parse error or on tokens that the parser does not handle.
    pub fn parse_checked(self) -> (r: Result<(Expr, Parser<'a>), Halt>)
        ensures
            step_view(r) == parse_spec(self@),
            consumes(r, self),
        decreases self.tokens@.len(), 5nat,
    {
        if self.tokens.len() == 0 {
            return Err(Halt::Error(ParseError::EndedTooEarly));
        }
        match &self.tokens[0] {
            Token::Fn => self.parse_function_def(),
            Token::LBrace => self.parse_block(),
            Token::Ident(_) => self.parse_ident(),
            Token::StringIndex(_) => self.parse_string(),
            Token::SemiColon => self.parse_semicolon(),
            t => Err(Halt::Panic(Panic::NotImplemented(t.copy()))),
        }
    }

    /// One expression, chosen by its first token.
    ///
    /// The tokens must not lead the parser to a construct it does not handle.
    pub fn parse(self) -> (r: Result<(Expr, Parser<'a>), ParseError>)
        requires
            !halts_otherwise(parse_spec(self@)),
        ensures
            match r {
                Ok((e, q)) => parse_spec(self@) == Ok::<(SpecExpr, SpecParser), SpecHalt>((e@, q@)),
                Err(err) => parse_spec(self@) == Err::<(SpecExpr, SpecParser), SpecHalt>(SpecHalt::Error(err@)),
            },
    {
        match self.parse_checked() {
            Ok(v) => Ok(v),
            Err(Halt::Error(e)) => Err(e),
            Err(Halt::Panic(_)) => Err(ParseError::EndedTooEarly),
        }
    }
}

} // verus!

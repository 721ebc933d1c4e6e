//! A statement-level parser: declarations, assignments, enums, structs,
//! calls, blocks and whole files.
use crate::error::{halts_otherwise, Halt, Panic, ParseError, SpecHalt, SpecParseError, SpecPanic};
use crate::lexer::{lex, lexing_extends_table};
use crate::parser::laws::{keeps, lemma_chain, lemma_keeps_refl, lemma_keeps_skip, lemma_keeps_trans, no_index_panic, sound, strings_in_store};
use crate::parser::SpecParser;
use crate::pattern::{
    expect, expect_ident, expect_ident_spec, expect_spec, expect_string, expect_string_spec, rest_after,
};
use crate::token::{strings_view, tokens_view, SpecToken, Token, TokenKind};
use vstd::prelude::*;

verus! {

/// A type named in a declaration.
#[derive(Debug, PartialEq)]
pub struct Type(pub String);

/// A member of an enum declaration.
#[derive(Debug, PartialEq)]
pub enum EnumDeclarationMembers {
    Simple(String),
    Variable(String, Type),
    Complex { name: String, content: Vec<(String, Type)> },
}

/// A statement or expression.
#[derive(Debug, PartialEq)]
pub enum Expression {
    Block { content: Box<Vec<Expression>> },
    String(String),
    VariableDeclaration { name: String, value: Box<Expression> },
    FunctionDeclaration { name: String, arguments: Vec<(String, Expression)>, body: Box<Expression> },
    EnumDeclaration { name: String, members: Box<Vec<EnumDeclarationMembers>> },
    StructDeclaration { name: String, content: Vec<(String, Type)> },
    FunctionCall { name: String, arguments: Box<Vec<Expression>> },
    VariableAssignment { name: String, value: Box<Expression> },
    SemiColon,
}

/// The value of an [`EnumDeclarationMembers`]; types are their names.
pub enum SpecMember {
    Simple(Seq<char>),
    Variable(Seq<char>, Seq<char>),
    Complex { name: Seq<char>, content: Seq<(Seq<char>, Seq<char>)> },
}

/// The value of an [`Expression`]; types are their names.
pub enum SpecExpression {
    Block { content: Seq<SpecExpression> },
    String(Seq<char>),
    VariableDeclaration { name: Seq<char>, value: Box<SpecExpression> },
    FunctionDeclaration { name: Seq<char>, arguments: Seq<(Seq<char>, SpecExpression)>, body: Box<SpecExpression> },
    EnumDeclaration { name: Seq<char>, members: Seq<SpecMember> },
    StructDeclaration { name: Seq<char>, content: Seq<(Seq<char>, Seq<char>)> },
    FunctionCall { name: Seq<char>, arguments: Seq<SpecExpression> },
    VariableAssignment { name: Seq<char>, value: Box<SpecExpression> },
    SemiColon,
}

impl View for Type {
    type V = Seq<char>;

    open spec fn view(&self) -> Seq<char> {
        self.0@
    }
}

pub open spec fn fields_view(s: Seq<(String, Type)>) -> Seq<(Seq<char>, Seq<char>)> {
    s.map_values(|f: (String, Type)| (f.0@, f.1@))
}

impl View for EnumDeclarationMembers {
    type V = SpecMember;

    open spec fn view(&self) -> SpecMember {
        match self {
            EnumDeclarationMembers::Simple(n) => SpecMember::Simple(n@),
            EnumDeclarationMembers::Variable(n, t) => SpecMember::Variable(n@, t@),
            EnumDeclarationMembers::Complex { name, content } => SpecMember::Complex { name: name@, content: fields_view(content@) },
        }
    }
}

pub open spec fn members_view(s: Seq<EnumDeclarationMembers>) -> Seq<SpecMember> {
    s.map_values(|m: EnumDeclarationMembers| m@)
}

pub open spec fn expression_view(e: Expression) -> SpecExpression
    decreases e,
{
    match e {
        Expression::Block { content } => SpecExpression::Block { content: expressions_view(content@) },
        Expression::String(s) => SpecExpression::String(s@),
        Expression::VariableDeclaration { name, value } => SpecExpression::VariableDeclaration {
            name: name@,
            value: Box::new(expression_view(*value)),
        },
        Expression::FunctionDeclaration { name, arguments, body } => SpecExpression::FunctionDeclaration {
            name: name@,
            arguments: arguments_view(arguments@),
            body: Box::new(expression_view(*body)),
        },
        Expression::EnumDeclaration { name, members } => SpecExpression::EnumDeclaration { name: name@, members: members_view(members@) },
        Expression::StructDeclaration { name, content } => SpecExpression::StructDeclaration { name: name@, content: fields_view(content@) },
        Expression::FunctionCall { name, arguments } => SpecExpression::FunctionCall { name: name@, arguments: expressions_view(arguments@) },
        Expression::VariableAssignment { name, value } => SpecExpression::VariableAssignment {
            name: name@,
            value: Box::new(expression_view(*value)),
        },
        Expression::SemiColon => SpecExpression::SemiColon,
    }
}

pub open spec fn expressions_view(s: Seq<Expression>) -> Seq<SpecExpression>
    decreases s,
{
    if s.len() == 0 {
        Seq::empty()
    } else {
        expressions_view(s.drop_last()).push(expression_view(s.last()))
    }
}

pub open spec fn arguments_view(s: Seq<(String, Expression)>) -> Seq<(Seq<char>, SpecExpression)>
    decreases s,
{
    if s.len() == 0 {
        Seq::empty()
    } else {
        arguments_view(s.drop_last()).push((s.last().0@, expression_view(s.last().1)))
    }
}

impl View for Expression {
    type V = SpecExpression;

    open spec fn view(&self) -> SpecExpression {
        expression_view(*self)
    }
}

/// The tokens still to parse and the store of string literals.
#[derive(Debug, PartialEq)]
pub struct ParserMonad<'a> {
    pub tokens: &'a [Token],
    pub string_interning_store: Vec<String>,
}

impl<'a> View for ParserMonad<'a> {
    type V = SpecParser;

    open spec fn view(&self) -> SpecParser {
        SpecParser { tokens: tokens_view(self.tokens@), store: strings_view(self.string_interning_store@) }
    }
}

/// What a parsing step gives: a value and the parser after it, or why it stopped.
pub type Step<T> = Result<(T, SpecParser), SpecHalt>;

/// Running out of tokens ("Tokenstream ended early").
pub open spec fn ended_early<T>() -> Result<T, SpecHalt> {
    Err(SpecHalt::Error(SpecParseError::EndedEarly))
}

/// The parser with the tokens `toks` in place of its own.
pub open spec fn with_tokens(p: SpecParser, toks: Seq<SpecToken>) -> SpecParser {
    SpecParser { tokens: toks, store: p.store }
}

pub open spec fn skip(p: SpecParser, n: int) -> SpecParser {
    with_tokens(p, p.tokens.skip(n))
}

/// One statement or expression, chosen by its first token.
pub open spec fn parse_spec(p: SpecParser) -> Step<SpecExpression>
    decreases p.tokens.len(), 5nat,
{
    if p.tokens.len() == 0 {
        ended_early()
    } else {
        match p.tokens[0] {
            SpecToken::Fn => function_def_spec(p),
            SpecToken::Let => let_spec(p),
            SpecToken::LBrace => block_spec(p),
            SpecToken::StringIndex(_) => string_spec(p),
            SpecToken::EnumDefinition => enum_def_spec(p),
            SpecToken::SemiColon => semicolon_spec(p),
            SpecToken::Ident(_) => ident_spec(p),
            SpecToken::StructDefinition => struct_def_spec(skip(p, 1)),
            t => Err(SpecHalt::Panic(SpecPanic::NotImplemented(t))),
        }
    }
}

/// A string literal: its text is taken out of the store, which keeps an empty
/// string in its place.
pub open spec fn string_spec(p: SpecParser) -> Step<SpecExpression>
    decreases p.tokens.len(), 4nat,
{
    match expect_string_spec(p.tokens) {
        Err(h) => Err(h),
        Ok((rest, id)) => {
            if id < p.store.len() {
                Ok((SpecExpression::String(p.store[id as int]), SpecParser { tokens: rest, store: p.store.update(id as int, Seq::empty()) }))
            } else {
                Err(SpecHalt::Panic(SpecPanic::StringIndexOutOfRange(id)))
            }
        },
    }
}

/// A semicolon.
pub open spec fn semicolon_spec(p: SpecParser) -> Step<SpecExpression>
    decreases p.tokens.len(), 4nat,
{
    match expect_spec(p.tokens, TokenKind::SemiColon) {
        Err(h) => Err(h),
        Ok(rest) => Ok((SpecExpression::SemiColon, with_tokens(p, rest))),
    }
}

/// `{`, statements, `}`.
pub open spec fn block_spec(p: SpecParser) -> Step<SpecExpression>
    decreases p.tokens.len(), 4nat,
{
    match expect_spec(p.tokens, TokenKind::LBrace) {
        Err(h) => Err(h),
        Ok(rest) => match block_items_spec(with_tokens(p, rest), Seq::empty()) {
            Err(h) => Err(h),
            Ok((content, q)) => Ok((SpecExpression::Block { content }, q)),
        },
    }
}

/// Statements after `acc` up to and including `}`.
pub open spec fn block_items_spec(p: SpecParser, acc: Seq<SpecExpression>) -> Step<Seq<SpecExpression>>
    decreases p.tokens.len(), 6nat,
{
    if p.tokens.len() == 0 {
        ended_early()
    } else if p.tokens[0] is RBrace {
        Ok((acc, skip(p, 1)))
    } else {
        match parse_spec(p) {
            Err(h) => Err(h),
            Ok((e, q)) => if q.tokens.len() < p.tokens.len() {
                block_items_spec(q, acc.push(e))
            } else {
                Err(SpecHalt::Stuck)
            },
        }
    }
}

/// An identifier: a call, an assignment, or a path (not handled).
pub open spec fn ident_spec(p: SpecParser) -> Step<SpecExpression>
    decreases p.tokens.len(), 4nat,
{
    if p.tokens.len() < 2 {
        ended_early()
    } else {
        match p.tokens[1] {
            SpecToken::LParen => function_call_spec(p),
            SpecToken::Equals => assignment_spec(p),
            SpecToken::Namespace => Err(SpecHalt::Panic(SpecPanic::Unimplemented)),
            t => Err(SpecHalt::Panic(SpecPanic::NotImplemented(t))),
        }
    }
}

/// A value for a declaration or an assignment: any statement but `;`.
pub open spec fn value_spec(p: SpecParser) -> Step<SpecExpression>
    decreases p.tokens.len(), 6nat,
{
    match parse_spec(p) {
        Err(h) => Err(h),
        Ok((e, q)) => if e is SemiColon {
            Err(SpecHalt::Error(SpecParseError::MissingValue))
        } else {
            Ok((e, q))
        },
    }
}

/// `name = value`.
pub open spec fn assignment_spec(p: SpecParser) -> Step<SpecExpression>
    decreases p.tokens.len(), 3nat,
{
    match expect_ident_spec(p.tokens) {
        Err(h) => Err(h),
        Ok((t1, name)) => match expect_spec(t1, TokenKind::Equals) {
            Err(h) => Err(h),
            Ok(t2) => match value_spec(with_tokens(p, t2)) {
                Err(h) => Err(h),
                Ok((value, q)) => Ok((SpecExpression::VariableAssignment { name, value: Box::new(value) }, q)),
            },
        },
    }
}

/// `let name = value`.
pub open spec fn let_spec(p: SpecParser) -> Step<SpecExpression>
    decreases p.tokens.len(), 4nat,
{
    match expect_spec(p.tokens, TokenKind::Let) {
        Err(h) => Err(h),
        Ok(t1) => match expect_ident_spec(t1) {
            Err(h) => Err(h),
            Ok((t2, name)) => match expect_spec(t2, TokenKind::Equals) {
                Err(h) => Err(h),
                Ok(t3) => match value_spec(with_tokens(p, t3)) {
                    Err(h) => Err(h),
                    Ok((value, q)) => Ok((SpecExpression::VariableDeclaration { name, value: Box::new(value) }, q)),
                },
            },
        },
    }
}

/// `name(` arguments `)`; commas are skipped.
pub open spec fn function_call_spec(p: SpecParser) -> Step<SpecExpression>
    decreases p.tokens.len(), 3nat,
{
    match expect_ident_spec(p.tokens) {
        Err(h) => Err(h),
        Ok((t1, name)) => match expect_spec(t1, TokenKind::LParen) {
            Err(h) => Err(h),
            Ok(t2) => match call_arguments_spec(with_tokens(p, t2), Seq::empty()) {
                Err(h) => Err(h),
                Ok((arguments, q)) => Ok((SpecExpression::FunctionCall { name, arguments }, q)),
            },
        },
    }
}

/// Call arguments after `acc` up to and including `)`.
pub open spec fn call_arguments_spec(p: SpecParser, acc: Seq<SpecExpression>) -> Step<Seq<SpecExpression>>
    decreases p.tokens.len(), 6nat,
{
    if p.tokens.len() == 0 {
        ended_early()
    } else if p.tokens[0] is RParen {
        Ok((acc, skip(p, 1)))
    } else if p.tokens[0] is Comma {
        call_arguments_spec(skip(p, 1), acc)
    } else {
        match parse_spec(p) {
            Err(h) => Err(h),
            Ok((e, q)) => if q.tokens.len() < p.tokens.len() {
                call_arguments_spec(q, acc.push(e))
            } else {
                Err(SpecHalt::Stuck)
            },
        }
    }
}

/// `fn name(` parameters `)` and a body.
pub open spec fn function_def_spec(p: SpecParser) -> Step<SpecExpression>
    decreases p.tokens.len(), 4nat,
{
    match expect_spec(p.tokens, TokenKind::Fn) {
        Err(h) => Err(h),
        Ok(t1) => match expect_ident_spec(t1) {
            Err(h) => Err(h),
            Ok((t2, name)) => match expect_spec(t2, TokenKind::LParen) {
                Err(h) => Err(h),
                Ok(t3) => match parameters_spec(with_tokens(p, t3), Seq::empty(), None) {
                    Err(h) => Err(h),
                    Ok((arguments, q)) => if q.tokens.len() < p.tokens.len() {
                        match parse_spec(q) {
                            Err(h) => Err(h),
                            Ok((body, r)) => Ok((SpecExpression::FunctionDeclaration { name, arguments, body: Box::new(body) }, r)),
                        }
                    } else {
                        Err(SpecHalt::Stuck)
                    },
                },
            },
        },
    }
}

/// Parameters after `acc` up to and including `)`. Commas and colons are
/// skipped; an identifier becomes the pending name (replacing any earlier one);
/// any other statement is paired with the pending name, which is then cleared.
pub open spec fn parameters_spec(p: SpecParser, acc: Seq<(Seq<char>, SpecExpression)>, pending: Option<Seq<char>>) -> Step<Seq<(Seq<char>, SpecExpression)>>
    decreases p.tokens.len(), 6nat,
{
    if p.tokens.len() == 0 {
        ended_early()
    } else {
        match p.tokens[0] {
            SpecToken::RParen => Ok((acc, skip(p, 1))),
            SpecToken::Comma => parameters_spec(skip(p, 1), acc, pending),
            SpecToken::Colon => parameters_spec(skip(p, 1), acc, pending),
            SpecToken::Ident(n) => parameters_spec(skip(p, 1), acc, Some(n)),
            _ => match parse_spec(p) {
                Err(h) => Err(h),
                Ok((e, q)) => match pending {
                    None => Err(SpecHalt::Error(SpecParseError::MissingArgumentName)),
                    Some(n) => if q.tokens.len() < p.tokens.len() {
                        parameters_spec(q, acc.push((n, e)), None)
                    } else {
                        Err(SpecHalt::Stuck)
                    },
                },
            },
        }
    }
}

/// `enum Name {` members `}`; commas are skipped.
pub open spec fn enum_def_spec(p: SpecParser) -> Step<SpecExpression>
    decreases p.tokens.len(), 4nat,
{
    match expect_spec(p.tokens, TokenKind::EnumDefinition) {
        Err(h) => Err(h),
        Ok(t1) => match expect_ident_spec(t1) {
            Err(h) => Err(h),
            Ok((t2, name)) => match expect_spec(t2, TokenKind::LBrace) {
                Err(h) => Err(h),
                Ok(t3) => match enum_members_spec(with_tokens(p, t3), Seq::empty()) {
                    Err(h) => Err(h),
                    Ok((members, q)) => Ok((SpecExpression::EnumDeclaration { name, members }, q)),
                },
            },
        },
    }
}

/// Enum members after `acc` up to and including `}`.
pub open spec fn enum_members_spec(p: SpecParser, acc: Seq<SpecMember>) -> Step<Seq<SpecMember>>
    decreases p.tokens.len(),
{
    if p.tokens.len() == 0 {
        ended_early()
    } else if p.tokens[0] is RBrace {
        Ok((acc, skip(p, 1)))
    } else if p.tokens[0] is Comma {
        enum_members_spec(skip(p, 1), acc)
    } else {
        match enum_member_spec(p) {
            Err(h) => Err(h),
            Ok((m, q)) => if q.tokens.len() < p.tokens.len() {
                enum_members_spec(q, acc.push(m))
            } else {
                Err(SpecHalt::Stuck)
            },
        }
    }
}

/// One enum member: `Name` (before `,` or `}`), or `Name(Type)` (which must be
/// followed by `,` or `}`); `Name {` has no parser.
pub open spec fn enum_member_spec(p: SpecParser) -> Step<SpecMember> {
    match expect_ident_spec(p.tokens) {
        Err(h) => Err(h),
        Ok((t1, name)) => if t1.len() == 0 {
            ended_early()
        } else {
            match t1[0] {
                SpecToken::RBrace => Ok((SpecMember::Simple(name), with_tokens(p, t1))),
                SpecToken::Comma => Ok((SpecMember::Simple(name), with_tokens(p, t1))),
                SpecToken::LParen => match expect_ident_spec(t1.skip(1)) {
                    Err(h) => Err(h),
                    Ok((t2, ty)) => match expect_spec(t2, TokenKind::RParen) {
                        Err(h) => Err(h),
                        Ok(t3) => if t3.len() > 0 && (t3[0] is Comma || t3[0] is RBrace) {
                            Ok((SpecMember::Variable(name, ty), with_tokens(p, t3)))
                        } else {
                            Err(SpecHalt::Error(SpecParseError::EnumMemberTerminator))
                        },
                    },
                },
                SpecToken::LBrace => Err(SpecHalt::Panic(SpecPanic::Unimplemented)),
                _ => Err(SpecHalt::Error(SpecParseError::EnumMemberStart)),
            }
        },
    }
}

/// `Name {` fields `}` (the `struct` keyword already taken).
pub open spec fn struct_def_spec(p: SpecParser) -> Step<SpecExpression> {
    match expect_ident_spec(p.tokens) {
        Err(h) => Err(h),
        Ok((t1, name)) => match expect_spec(t1, TokenKind::LBrace) {
            Err(h) => Err(h),
            Ok(t2) => match struct_fields_spec(t2, Seq::empty()) {
                Err(h) => Err(h),
                Ok((content, rest)) => Ok((SpecExpression::StructDeclaration { name, content }, with_tokens(p, rest))),
            },
        },
    }
}

/// `name: Type` fields after `acc`, separated by commas, up to and including
/// `}` (a comma may come before it).
pub open spec fn struct_fields_spec(toks: Seq<SpecToken>, acc: Seq<(Seq<char>, Seq<char>)>) -> Result<(Seq<(Seq<char>, Seq<char>)>, Seq<SpecToken>), SpecHalt>
    decreases toks.len(),
{
    if toks.len() > 0 && toks[0] is RBrace {
        Ok((acc, toks.skip(1)))
    } else if toks.len() > 1 && toks[0] is Comma && toks[1] is RBrace {
        Ok((acc, toks.skip(2)))
    } else {
        let t = if toks.len() > 0 && toks[0] is Comma { toks.skip(1) } else { toks };
        match expect_ident_spec(t) {
            Err(h) => Err(h),
            Ok((t1, field)) => match expect_spec(t1, TokenKind::Colon) {
                Err(h) => Err(h),
                Ok(t2) => match expect_ident_spec(t2) {
                    Err(h) => Err(h),
                    Ok((t3, ty)) => struct_fields_spec(t3, acc.push((field, ty))),
                },
            },
        }
    }
}

/// Statements after `acc` up to the end of the tokens, as a block.
pub open spec fn file_spec(p: SpecParser, acc: Seq<SpecExpression>) -> Step<SpecExpression>
    decreases p.tokens.len(),
{
    if p.tokens.len() == 0 {
        Ok((SpecExpression::Block { content: acc }, p))
    } else {
        match parse_spec(p) {
            Err(h) => Err(h),
            Ok((e, q)) => if q.tokens.len() < p.tokens.len() {
                file_spec(q, acc.push(e))
            } else {
                Err(SpecHalt::Stuck)
            },
        }
    }
}

/// The value of a parsing step.
pub open spec fn step_view<'a, T: View>(r: Result<(T, ParserMonad<'a>), Halt>) -> Step<T::V> {
    match r {
        Ok((v, p)) => Ok((v@, p@)),
        Err(h) => Err(h@),
    }
}

/// Whether a step, when it succeeds, leaves fewer tokens than `p` has.
pub open spec fn consumes<'a, T>(r: Result<(T, ParserMonad<'a>), Halt>, p: ParserMonad<'a>) -> bool {
    r matches Ok((_, q)) ==> q.tokens@.len() < p.tokens@.len()
}

pub open spec fn pending_view(o: Option<String>) -> Option<Seq<char>> {
    match o {
        Some(s) => Some(s@),
        None => None,
    }
}

impl<'a> ParserMonad<'a> {
    /// Takes the first token.
    pub fn consume(&mut self) -> (r: Result<&'a Token, ParseError>)
        ensures
            old(self).tokens@.len() == 0 ==> (r matches Err(e) && e@ == SpecParseError::EndedEarly) && final(self)@ == old(self)@,
            old(self).tokens@.len() > 0 ==> (r matches Ok(t) && t@ == old(self)@.tokens[0])
                && final(self)@ == skip(old(self)@, 1) && final(self).tokens@.len() + 1 == old(self).tokens@.len(),
    {
        let tokens: &'a [Token] = self.tokens;
        if tokens.len() == 0 {
            return Err(ParseError::EndedEarly);
        }
        let first: &'a Token = &tokens[0];
        self.tokens = rest_after(tokens, 1);
        Ok(first)
    }

    /// The first token.
    pub fn first(&self) -> (r: Result<&'a Token, ParseError>)
        ensures
            self.tokens@.len() == 0 ==> (r matches Err(e) && e@ == SpecParseError::EndedEarly),
            self.tokens@.len() > 0 ==> (r matches Ok(t) && t@ == self@.tokens[0]),
    {
        let tokens: &'a [Token] = self.tokens;
        if tokens.len() == 0 {
            return Err(ParseError::EndedEarly);
        }
        Ok(&tokens[0])
    }

    fn with(tokens: &'a [Token], store: Vec<String>) -> (r: ParserMonad<'a>)
        ensures
            r.tokens == tokens,
            r.string_interning_store == store,
    {
        ParserMonad { tokens, string_interning_store: store }
    }

    /// Statements up to the end of the tokens, as a block; stops without a
    /// value on a parse error or on tokens that the parser does not handle.
    #[verifier::loop_isolation(false)]
    pub fn parse_file_checked(self) -> (r: Result<(Expression, ParserMonad<'a>), Halt>)
        ensures
            step_view(r) == file_spec(self@, Seq::empty()),
    {
        let mut parser = self;
        let mut content: Vec<Expression> = Vec::new();
        loop
            invariant
                file_spec(self@, Seq::empty()) == file_spec(parser@, expressions_view(content@)),
            decreases parser.tokens@.len(),
        {
            if parser.tokens.len() == 0 {
                break;
            }
            let (e, next) = parser.parse_checked()?;
            let ghost before = content@;
            content.push(e);
            assert(content@.drop_last() =~= before);
            parser = next;
        }
        Ok((Expression::Block { content: Box::new(content) }, parser))
    }

    /// Statements up to the end of the tokens, as a block.
    ///
    /// The tokens must not lead the parser to a construct it does not handle.
    pub fn parse_file(self) -> (r: Result<(Expression, ParserMonad<'a>), ParseError>)
        requires
            !halts_otherwise(file_spec(self@, Seq::empty())),
        ensures
            match r {
                Ok((e, q)) => file_spec(self@, Seq::empty()) == Ok::<(SpecExpression, SpecParser), SpecHalt>((e@, q@)),
                Err(err) => file_spec(self@, Seq::empty()) == Err::<(SpecExpression, SpecParser), SpecHalt>(SpecHalt::Error(err@)),
            },
    {
        match self.parse_file_checked() {
            Ok(v) => Ok(v),
            Err(Halt::Error(e)) => Err(e),
            Err(Halt::Panic(_)) => Err(ParseError::EndedEarly),
        }
    }

    /// One statement or expression, chosen by its first token; stops without a
    /// value on a parse error or on tokens that the parser does not handle.
    pub fn parse_checked(self) -> (r: Result<(Expression, ParserMonad<'a>), Halt>)
        ensures
            step_view(r) == parse_spec(self@),
            consumes(r, self),
        decreases self.tokens@.len(), 5nat,
    {
        if self.tokens.len() == 0 {
            return Err(Halt::Error(ParseError::EndedEarly));
        }
        match &self.tokens[0] {
            Token::Fn => self.parse_function_def(),
            Token::Let => self.parse_let(),
            Token::LBrace => self.parse_block(),
            Token::StringIndex(_) => self.parse_string(),
            Token::EnumDefinition => self.parse_enum_def(),
            Token::SemiColon => self.parse_semicolon(),
            Token::Ident(_) => self.parse_ident(),
            Token::StructDefinition => {
                let tokens = rest_after(self.tokens, 1);
                ParserMonad::with(tokens, self.string_interning_store).parse_struct_def()
            },
            t => Err(Halt::Panic(Panic::NotImplemented(t.copy()))),
        }
    }

    /// One statement or expression, chosen by its first token.
    ///
    /// The tokens must not lead the parser to a construct it does not handle.
    pub fn parse(self) -> (r: Result<(Expression, ParserMonad<'a>), ParseError>)
        requires
            !halts_otherwise(parse_spec(self@)),
        ensures
            match r {
                Ok((e, q)) => parse_spec(self@) == Ok::<(SpecExpression, SpecParser), SpecHalt>((e@, q@)),
                Err(err) => parse_spec(self@) == Err::<(SpecExpression, SpecParser), SpecHalt>(SpecHalt::Error(err@)),
            },
    {
        match self.parse_checked() {
            Ok(v) => Ok(v),
            Err(Halt::Error(e)) => Err(e),
            Err(Halt::Panic(_)) => Err(ParseError::EndedEarly),
        }
    }

    fn parse_string(self) -> (r: Result<(Expression, ParserMonad<'a>), Halt>)
        ensures
            step_view(r) == string_spec(self@),
            consumes(r, self),
    {
        let (tokens, id) = expect_string(self.tokens)?;
        let ghost before = strings_view(self.string_interning_store@);
        let mut store = self.string_interning_store;
        if id >= store.len() {
            return Err(Halt::Panic(Panic::StringIndexOutOfRange(id)));
        }
        let mut text = String::new();
        std::mem::swap(&mut store[id], &mut text);
        assert(strings_view(store@) =~= before.update(id as int, Seq::empty()));
        Ok((Expression::String(text), ParserMonad::with(tokens, store)))
    }

    fn parse_semicolon(self) -> (r: Result<(Expression, ParserMonad<'a>), Halt>)
        ensures
            step_view(r) == semicolon_spec(self@),
            consumes(r, self),
    {
        let tokens = expect(self.tokens, TokenKind::SemiColon)?;
        Ok((Expression::SemiColon, ParserMonad::with(tokens, self.string_interning_store)))
    }

    #[verifier::loop_isolation(false)]
    fn parse_block(self) -> (r: Result<(Expression, ParserMonad<'a>), Halt>)
        ensures
            step_view(r) == block_spec(self@),
            consumes(r, self),
        decreases self.tokens@.len(), 4nat,
    {
        let tokens = expect(self.tokens, TokenKind::LBrace)?;
        let mut parser = ParserMonad::with(tokens, self.string_interning_store);
        let ghost start = parser@;
        let mut content: Vec<Expression> = Vec::new();
        loop
            invariant
                block_items_spec(start, Seq::empty()) == block_items_spec(parser@, expressions_view(content@)),
                parser.tokens@.len() < self.tokens@.len(),
            decreases parser.tokens@.len(),
        {
            if parser.tokens.len() == 0 {
                return Err(Halt::Error(ParseError::EndedEarly));
            }
            if parser.tokens[0].kind() == TokenKind::RBrace {
                let rest = rest_after(parser.tokens, 1);
                return Ok((Expression::Block { content: Box::new(content) }, ParserMonad::with(rest, parser.string_interning_store)));
            }
            let (e, next) = parser.parse_checked()?;
            let ghost before = content@;
            content.push(e);
            assert(content@.drop_last() =~= before);
            parser = next;
        }
    }

    fn parse_ident(self) -> (r: Result<(Expression, ParserMonad<'a>), Halt>)
        ensures
            step_view(r) == ident_spec(self@),
            consumes(r, self),
        decreases self.tokens@.len(), 4nat,
    {
        if self.tokens.len() < 2 {
            return Err(Halt::Error(ParseError::EndedEarly));
        }
        match &self.tokens[1] {
            Token::LParen => self.parse_function_call(),
            Token::Equals => self.parse_assignment(),
            Token::Namespace => self.parse_ns(),
            t => Err(Halt::Panic(Panic::NotImplemented(t.copy()))),
        }
    }

    /// Paths (`a::b`) have no parser.
    fn parse_ns(self) -> (r: Result<(Expression, ParserMonad<'a>), Halt>)
        ensures
            step_view(r) == Err::<(SpecExpression, SpecParser), SpecHalt>(SpecHalt::Panic(SpecPanic::Unimplemented)),
    {
        Err(Halt::Panic(Panic::Unimplemented))
    }

    /// Struct literals have no parser.
    fn parse_struct(self) -> (r: Result<(Expression, ParserMonad<'a>), Halt>)
        ensures
            step_view(r) == Err::<(SpecExpression, SpecParser), SpecHalt>(SpecHalt::Panic(SpecPanic::Unimplemented)),
    {
        Err(Halt::Panic(Panic::Unimplemented))
    }

    /// A value: any statement but `;`.
    fn parse_value(self) -> (r: Result<(Expression, ParserMonad<'a>), Halt>)
        ensures
            step_view(r) == value_spec(self@),
            consumes(r, self),
        decreases self.tokens@.len(), 6nat,
    {
        let (e, q) = self.parse_checked()?;
        if let Expression::SemiColon = e {
            return Err(Halt::Error(ParseError::MissingValue));
        }
        Ok((e, q))
    }

    fn parse_assignment(self) -> (r: Result<(Expression, ParserMonad<'a>), Halt>)
        ensures
            step_view(r) == assignment_spec(self@),
            consumes(r, self),
        decreases self.tokens@.len(), 3nat,
    {
        let (t1, name) = expect_ident(self.tokens)?;
        let t2 = expect(t1, TokenKind::Equals)?;
        let (value, q) = ParserMonad::with(t2, self.string_interning_store).parse_value()?;
        Ok((Expression::VariableAssignment { name: name.clone(), value: Box::new(value) }, q))
    }

    fn parse_let(self) -> (r: Result<(Expression, ParserMonad<'a>), Halt>)
        ensures
            step_view(r) == let_spec(self@),
            consumes(r, self),
        decreases self.tokens@.len(), 4nat,
    {
        let t1 = expect(self.tokens, TokenKind::Let)?;
        let (t2, name) = expect_ident(t1)?;
        let t3 = expect(t2, TokenKind::Equals)?;
        let (value, q) = ParserMonad::with(t3, self.string_interning_store).parse_value()?;
        Ok((Expression::VariableDeclaration { name: name.clone(), value: Box::new(value) }, q))
    }

    #[verifier::loop_isolation(false)]
    fn parse_function_call(self) -> (r: Result<(Expression, ParserMonad<'a>), Halt>)
        ensures
            step_view(r) == function_call_spec(self@),
            consumes(r, self),
        decreases self.tokens@.len(), 3nat,
    {
        let (t1, name) = expect_ident(self.tokens)?;
        let t2 = expect(t1, TokenKind::LParen)?;
        let mut parser = ParserMonad::with(t2, self.string_interning_store);
        let ghost start = parser@;
        let mut arguments: Vec<Expression> = Vec::new();
        loop
            invariant
                call_arguments_spec(start, Seq::empty()) == call_arguments_spec(parser@, expressions_view(arguments@)),
                parser.tokens@.len() < self.tokens@.len(),
            decreases parser.tokens@.len(),
        {
            if parser.tokens.len() == 0 {
                return Err(Halt::Error(ParseError::EndedEarly));
            }
            let kind = parser.tokens[0].kind();
            if kind == TokenKind::RParen {
                let rest = rest_after(parser.tokens, 1);
                return Ok((Expression::FunctionCall { name: name.clone(), arguments: Box::new(arguments) }, ParserMonad::with(rest, parser.string_interning_store)));
            } else if kind == TokenKind::Comma {
                parser.tokens = rest_after(parser.tokens, 1);
            } else {
                let (e, next) = parser.parse_checked()?;
                let ghost before = arguments@;
                arguments.push(e);
                assert(arguments@.drop_last() =~= before);
                parser = next;
            }
        }
    }

    #[verifier::loop_isolation(false)]
    fn parse_function_def(self) -> (r: Result<(Expression, ParserMonad<'a>), Halt>)
        ensures
            step_view(r) == function_def_spec(self@),
            consumes(r, self),
        decreases self.tokens@.len(), 4nat,
    {
        let t1 = expect(self.tokens, TokenKind::Fn)?;
        let (t2, name) = expect_ident(t1)?;
        let t3 = expect(t2, TokenKind::LParen)?;
        let mut parser = ParserMonad::with(t3, self.string_interning_store);
        let ghost start = parser@;
        let mut arguments: Vec<(String, Expression)> = Vec::new();
        let mut current_argument_name: Option<String> = None;
        loop
            invariant
                parameters_spec(start, Seq::empty(), None) == parameters_spec(parser@, arguments_view(arguments@), pending_view(current_argument_name)),
                parser.tokens@.len() < self.tokens@.len(),
            decreases parser.tokens@.len(),
        {
            if parser.tokens.len() == 0 {
                return Err(Halt::Error(ParseError::EndedEarly));
            }
            let tokens: &'a [Token] = parser.tokens;
            match &tokens[0] {
                Token::RParen => {
                    parser.tokens = rest_after(tokens, 1);
                    break;
                },
                Token::Comma | Token::Colon => {
                    parser.tokens = rest_after(tokens, 1);
                },
                Token::Ident(n) => {
                    current_argument_name = Some(n.clone());
                    parser.tokens = rest_after(tokens, 1);
                },
                _ => {
                    let (e, next) = parser.parse_checked()?;
                    match current_argument_name.take() {
                        None => {
                            return Err(Halt::Error(ParseError::MissingArgumentName));
                        },
                        Some(n) => {
                            let ghost before = arguments@;
                            arguments.push((n, e));
                            assert(arguments@.drop_last() =~= before);
                        },
                    }
                    parser = next;
                },
            }
        }
        let (body, q) = parser.parse_checked()?;
        Ok((Expression::FunctionDeclaration { name: name.clone(), arguments, body: Box::new(body) }, q))
    }

    #[verifier::loop_isolation(false)]
    fn parse_enum_def(self) -> (r: Result<(Expression, ParserMonad<'a>), Halt>)
        ensures
            step_view(r) == enum_def_spec(self@),
            consumes(r, self),
        decreases self.tokens@.len(), 4nat,
    {
        let t1 = expect(self.tokens, TokenKind::EnumDefinition)?;
        let (t2, name) = expect_ident(t1)?;
        let t3 = expect(t2, TokenKind::LBrace)?;
        let mut parser = ParserMonad::with(t3, self.string_interning_store);
        let ghost start = parser@;
        let mut members: Vec<EnumDeclarationMembers> = Vec::new();
        assert(members_view(members@) =~= Seq::empty());
        loop
            invariant
                enum_members_spec(start, Seq::empty()) == enum_members_spec(parser@, members_view(members@)),
                parser.tokens@.len() < self.tokens@.len(),
            decreases parser.tokens@.len(),
        {
            if parser.tokens.len() == 0 {
                return Err(Halt::Error(ParseError::EndedEarly));
            }
            let kind = parser.tokens[0].kind();
            if kind == TokenKind::RBrace {
                let rest = rest_after(parser.tokens, 1);
                return Ok((Expression::EnumDeclaration { name: name.clone(), members: Box::new(members) }, ParserMonad::with(rest, parser.string_interning_store)));
            } else if kind == TokenKind::Comma {
                parser.tokens = rest_after(parser.tokens, 1);
            } else {
                let (member, next) = parser.parse_enum_member()?;
                let ghost before = members@;
                members.push(member);
                assert(members_view(members@) =~= members_view(before).push(members@.last()@));
                parser = next;
            }
        }
    }

    fn parse_enum_member(self) -> (r: Result<(EnumDeclarationMembers, ParserMonad<'a>), Halt>)
        ensures
            step_view(r) == enum_member_spec(self@),
            consumes(r, self),
    {
        let (tokens, name) = expect_ident(self.tokens)?;
        if tokens.len() == 0 {
            return Err(Halt::Error(ParseError::EndedEarly));
        }
        match &tokens[0] {
            Token::RBrace | Token::Comma => Ok((EnumDeclarationMembers::Simple(name.clone()), ParserMonad::with(tokens, self.string_interning_store))),
            Token::LParen => {
                let (t2, ty) = expect_ident(rest_after(tokens, 1))?;
                let t3 = expect(t2, TokenKind::RParen)?;
                if !(t3.len() > 0 && (t3[0].kind() == TokenKind::Comma || t3[0].kind() == TokenKind::RBrace)) {
                    return Err(Halt::Error(ParseError::EnumMemberTerminator));
                }
                Ok((EnumDeclarationMembers::Variable(name.clone(), Type(ty.clone())), ParserMonad::with(t3, self.string_interning_store)))
            },
            Token::LBrace => {
                let (expression, parser) = self.parse_struct()?;
                match expression {
                    Expression::StructDeclaration { name, content } => Ok((EnumDeclarationMembers::Complex { name, content }, parser)),
                    _ => Err(Halt::Panic(Panic::Unimplemented)),
                }
            },
            _ => Err(Halt::Error(ParseError::EnumMemberStart)),
        }
    }

    #[verifier::loop_isolation(false)]
    fn parse_struct_def(self) -> (r: Result<(Expression, ParserMonad<'a>), Halt>)
        ensures
            step_view(r) == struct_def_spec(self@),
            r matches Ok((_, q)) ==> q.tokens@.len() <= self.tokens@.len(),
    {
        let (t1, name) = expect_ident(self.tokens)?;
        let t2 = expect(t1, TokenKind::LBrace)?;
        let mut mtokens: &'a [Token] = t2;
        let mut content: Vec<(String, Type)> = Vec::new();
        assert(fields_view(content@) =~= Seq::empty());
        loop
            invariant
                struct_fields_spec(tokens_view(t2@), Seq::empty()) == struct_fields_spec(tokens_view(mtokens@), fields_view(content@)),
                mtokens@.len() <= self.tokens@.len(),
            decreases mtokens@.len(),
        {
            let n = mtokens.len();
            let tokens: &'a [Token] = if n > 0 && mtokens[0].kind() == TokenKind::RBrace {
                mtokens = rest_after(mtokens, 1);
                break;
            } else if n > 0 && mtokens[0].kind() == TokenKind::Comma {
                if n > 1 && mtokens[1].kind() == TokenKind::RBrace {
                    mtokens = rest_after(mtokens, 2);
                    break;
                }
                rest_after(mtokens, 1)
            } else {
                mtokens
            };
            let (t, field) = expect_ident(tokens)?;
            let t = expect(t, TokenKind::Colon)?;
            let (t, ty) = expect_ident(t)?;
            mtokens = t;
            let ghost before = content@;
            content.push((field.clone(), Type(ty.clone())));
            assert(fields_view(content@) =~= fields_view(before).push((field@, ty@)));
        }
        Ok((Expression::StructDeclaration { name: name.clone(), content }, ParserMonad::with(mtokens, self.string_interning_store)))
    }
}

proof fn lemma_with_skip(p: SpecParser, n: int)
    requires
        0 <= n <= p.tokens.len(),
    ensures
        keeps(p, with_tokens(p, p.tokens.skip(n))),
        skip(p, n) == with_tokens(p, p.tokens.skip(n)),
{
    lemma_keeps_skip(p, n);
    assert(crate::parser::skip(p, n) == with_tokens(p, p.tokens.skip(n)));
}

proof fn lemma_expect(p: SpecParser, kind: TokenKind)
    ensures
        expect_spec(p.tokens, kind) matches Ok(rest) ==> keeps(p, with_tokens(p, rest)) && rest.len() + 1 == p.tokens.len(),
{
    if p.tokens.len() > 0 {
        lemma_with_skip(p, 1);
    }
}

proof fn lemma_expect_ident(p: SpecParser)
    ensures
        expect_ident_spec(p.tokens) matches Ok((rest, _)) ==> keeps(p, with_tokens(p, rest)) && rest.len() + 1 == p.tokens.len(),
{
    if p.tokens.len() > 0 {
        lemma_with_skip(p, 1);
    }
}

proof fn lemma_string(p: SpecParser)
    ensures
        sound(p, string_spec(p)),
{
    if p.tokens.len() > 0 {
        lemma_with_skip(p, 1);
        if strings_in_store(p) {
            assert(p.tokens[0] matches SpecToken::StringIndex(k) ==> k < p.store.len());
        }
    }
}

proof fn lemma_semicolon(p: SpecParser)
    ensures
        sound(p, semicolon_spec(p)),
{
    lemma_expect(p, TokenKind::SemiColon);
}

proof fn lemma_parse(p: SpecParser)
    ensures
        sound(p, parse_spec(p)),
    decreases p.tokens.len(), 5nat,
{
    if p.tokens.len() > 0 {
        match p.tokens[0] {
            SpecToken::Fn => lemma_function_def(p),
            SpecToken::Let => lemma_let(p),
            SpecToken::LBrace => lemma_block(p),
            SpecToken::StringIndex(_) => lemma_string(p),
            SpecToken::EnumDefinition => lemma_enum_def(p),
            SpecToken::SemiColon => lemma_semicolon(p),
            SpecToken::Ident(_) => lemma_ident(p),
            SpecToken::StructDefinition => {
                lemma_with_skip(p, 1);
                lemma_struct_def(skip(p, 1));
                lemma_chain(p, skip(p, 1), struct_def_spec(skip(p, 1)));
            },
            _ => {},
        }
    }
}

proof fn lemma_block(p: SpecParser)
    ensures
        sound(p, block_spec(p)),
    decreases p.tokens.len(), 4nat,
{
    lemma_expect(p, TokenKind::LBrace);
    if let Ok(rest) = expect_spec(p.tokens, TokenKind::LBrace) {
        lemma_block_items(with_tokens(p, rest), Seq::empty());
        lemma_chain(p, with_tokens(p, rest), block_items_spec(with_tokens(p, rest), Seq::empty()));
    }
}

proof fn lemma_block_items(p: SpecParser, acc: Seq<SpecExpression>)
    ensures
        sound(p, block_items_spec(p, acc)),
    decreases p.tokens.len(), 6nat,
{
    if p.tokens.len() > 0 {
        if p.tokens[0] is RBrace {
            lemma_with_skip(p, 1);
        } else {
            lemma_parse(p);
            if let Ok((e, q)) = parse_spec(p) {
                if q.tokens.len() < p.tokens.len() {
                    lemma_block_items(q, acc.push(e));
                    lemma_chain(p, q, block_items_spec(q, acc.push(e)));
                }
            }
        }
    }
}

proof fn lemma_ident(p: SpecParser)
    ensures
        sound(p, ident_spec(p)),
    decreases p.tokens.len(), 4nat,
{
    if p.tokens.len() >= 2 {
        match p.tokens[1] {
            SpecToken::LParen => lemma_function_call(p),
            SpecToken::Equals => lemma_assignment(p),
            _ => {},
        }
    }
}

proof fn lemma_value(p: SpecParser)
    ensures
        sound(p, value_spec(p)),
    decreases p.tokens.len(), 6nat,
{
    lemma_parse(p);
}

proof fn lemma_assignment(p: SpecParser)
    ensures
        sound(p, assignment_spec(p)),
    decreases p.tokens.len(), 3nat,
{
    lemma_expect_ident(p);
    if let Ok((t1, name)) = expect_ident_spec(p.tokens) {
        let p1 = with_tokens(p, t1);
        lemma_expect(p1, TokenKind::Equals);
        if let Ok(t2) = expect_spec(t1, TokenKind::Equals) {
            let p2 = with_tokens(p, t2);
            lemma_keeps_trans(p, p1, p2);
            lemma_value(p2);
            lemma_chain(p, p2, value_spec(p2));
        }
    }
}

proof fn lemma_let(p: SpecParser)
    ensures
        sound(p, let_spec(p)),
    decreases p.tokens.len(), 4nat,
{
    lemma_expect(p, TokenKind::Let);
    if let Ok(t1) = expect_spec(p.tokens, TokenKind::Let) {
        let p1 = with_tokens(p, t1);
        lemma_expect_ident(p1);
        if let Ok((t2, name)) = expect_ident_spec(t1) {
            let p2 = with_tokens(p, t2);
            lemma_keeps_trans(p, p1, p2);
            lemma_expect(p2, TokenKind::Equals);
            if let Ok(t3) = expect_spec(t2, TokenKind::Equals) {
                let p3 = with_tokens(p, t3);
                lemma_keeps_trans(p, p2, p3);
                lemma_value(p3);
                lemma_chain(p, p3, value_spec(p3));
            }
        }
    }
}

proof fn lemma_function_call(p: SpecParser)
    ensures
        sound(p, function_call_spec(p)),
    decreases p.tokens.len(), 3nat,
{
    lemma_expect_ident(p);
    if let Ok((t1, name)) = expect_ident_spec(p.tokens) {
        let p1 = with_tokens(p, t1);
        lemma_expect(p1, TokenKind::LParen);
        if let Ok(t2) = expect_spec(t1, TokenKind::LParen) {
            let p2 = with_tokens(p, t2);
            lemma_keeps_trans(p, p1, p2);
            lemma_call_arguments(p2, Seq::empty());
            lemma_chain(p, p2, call_arguments_spec(p2, Seq::empty()));
        }
    }
}

proof fn lemma_call_arguments(p: SpecParser, acc: Seq<SpecExpression>)
    ensures
        sound(p, call_arguments_spec(p, acc)),
    decreases p.tokens.len(), 6nat,
{
    if p.tokens.len() > 0 {
        if p.tokens[0] is RParen {
            lemma_with_skip(p, 1);
        } else if p.tokens[0] is Comma {
            lemma_with_skip(p, 1);
            lemma_call_arguments(skip(p, 1), acc);
            lemma_chain(p, skip(p, 1), call_arguments_spec(skip(p, 1), acc));
        } else {
            lemma_parse(p);
            if let Ok((e, q)) = parse_spec(p) {
                if q.tokens.len() < p.tokens.len() {
                    lemma_call_arguments(q, acc.push(e));
                    lemma_chain(p, q, call_arguments_spec(q, acc.push(e)));
                }
            }
        }
    }
}

proof fn lemma_function_def(p: SpecParser)
    ensures
        sound(p, function_def_spec(p)),
    decreases p.tokens.len(), 4nat,
{
    lemma_expect(p, TokenKind::Fn);
    if let Ok(t1) = expect_spec(p.tokens, TokenKind::Fn) {
        let p1 = with_tokens(p, t1);
        lemma_expect_ident(p1);
        if let Ok((t2, name)) = expect_ident_spec(t1) {
            let p2 = with_tokens(p, t2);
            lemma_keeps_trans(p, p1, p2);
            lemma_expect(p2, TokenKind::LParen);
            if let Ok(t3) = expect_spec(t2, TokenKind::LParen) {
                let p3 = with_tokens(p, t3);
                lemma_keeps_trans(p, p2, p3);
                lemma_parameters(p3, Seq::empty(), None);
                lemma_chain(p, p3, parameters_spec(p3, Seq::empty(), None));
                if let Ok((arguments, q)) = parameters_spec(p3, Seq::empty(), None) {
                    if q.tokens.len() < p.tokens.len() {
                        lemma_parse(q);
                        lemma_chain(p, q, parse_spec(q));
                    }
                }
            }
        }
    }
}

proof fn lemma_parameters(p: SpecParser, acc: Seq<(Seq<char>, SpecExpression)>, pending: Option<Seq<char>>)
    ensures
        sound(p, parameters_spec(p, acc, pending)),
    decreases p.tokens.len(), 6nat,
{
    if p.tokens.len() > 0 {
        lemma_with_skip(p, 1);
        match p.tokens[0] {
            SpecToken::RParen => {},
            SpecToken::Comma => {
                lemma_parameters(skip(p, 1), acc, pending);
                lemma_chain(p, skip(p, 1), parameters_spec(skip(p, 1), acc, pending));
            },
            SpecToken::Colon => {
                lemma_parameters(skip(p, 1), acc, pending);
                lemma_chain(p, skip(p, 1), parameters_spec(skip(p, 1), acc, pending));
            },
            SpecToken::Ident(n) => {
                lemma_parameters(skip(p, 1), acc, Some(n));
                lemma_chain(p, skip(p, 1), parameters_spec(skip(p, 1), acc, Some(n)));
            },
            _ => {
                lemma_parse(p);
                if let Ok((e, q)) = parse_spec(p) {
                    if let Some(n) = pending {
                        if q.tokens.len() < p.tokens.len() {
                            lemma_parameters(q, acc.push((n, e)), None);
                            lemma_chain(p, q, parameters_spec(q, acc.push((n, e)), None));
                        }
                    }
                }
            },
        }
    }
}

proof fn lemma_enum_def(p: SpecParser)
    ensures
        sound(p, enum_def_spec(p)),
    decreases p.tokens.len(), 4nat,
{
    lemma_expect(p, TokenKind::EnumDefinition);
    if let Ok(t1) = expect_spec(p.tokens, TokenKind::EnumDefinition) {
        let p1 = with_tokens(p, t1);
        lemma_expect_ident(p1);
        if let Ok((t2, name)) = expect_ident_spec(t1) {
            let p2 = with_tokens(p, t2);
            lemma_keeps_trans(p, p1, p2);
            lemma_expect(p2, TokenKind::LBrace);
            if let Ok(t3) = expect_spec(t2, TokenKind::LBrace) {
                let p3 = with_tokens(p, t3);
                lemma_keeps_trans(p, p2, p3);
                lemma_enum_members(p3, Seq::empty());
                lemma_chain(p, p3, enum_members_spec(p3, Seq::empty()));
            }
        }
    }
}

proof fn lemma_enum_members(p: SpecParser, acc: Seq<SpecMember>)
    ensures
        sound(p, enum_members_spec(p, acc)),
    decreases p.tokens.len(),
{
    if p.tokens.len() > 0 {
        if p.tokens[0] is RBrace {
            lemma_with_skip(p, 1);
        } else if p.tokens[0] is Comma {
            lemma_with_skip(p, 1);
            lemma_enum_members(skip(p, 1), acc);
            lemma_chain(p, skip(p, 1), enum_members_spec(skip(p, 1), acc));
        } else {
            lemma_enum_member(p);
            if let Ok((m, q)) = enum_member_spec(p) {
                if q.tokens.len() < p.tokens.len() {
                    lemma_enum_members(q, acc.push(m));
                    lemma_chain(p, q, enum_members_spec(q, acc.push(m)));
                }
            }
        }
    }
}

proof fn lemma_enum_member(p: SpecParser)
    ensures
        sound(p, enum_member_spec(p)),
{
    lemma_expect_ident(p);
    if let Ok((t1, name)) = expect_ident_spec(p.tokens) {
        let p1 = with_tokens(p, t1);
        if t1.len() > 0 && t1[0] is LParen {
            lemma_with_skip(p1, 1);
            let p2 = with_tokens(p, t1.skip(1));
            lemma_keeps_trans(p, p1, p2);
            lemma_expect_ident(p2);
            if let Ok((t2, ty)) = expect_ident_spec(t1.skip(1)) {
                let p3 = with_tokens(p, t2);
                lemma_keeps_trans(p, p2, p3);
                lemma_expect(p3, TokenKind::RParen);
                if let Ok(t3) = expect_spec(t2, TokenKind::RParen) {
                    lemma_keeps_trans(p, p3, with_tokens(p, t3));
                }
            }
        }
    }
}

proof fn lemma_struct_fields(toks: Seq<SpecToken>, acc: Seq<(Seq<char>, Seq<char>)>)
    ensures
        struct_fields_spec(toks, acc) matches Ok((_, rest)) ==> rest.len() <= toks.len() && rest == toks.skip(toks.len() - rest.len()),
        struct_fields_spec(toks, acc) matches Err(h) ==> h is Error,
    decreases toks.len(),
{
    if toks.len() > 0 && toks[0] is RBrace {
        assert(toks.skip(1) =~= toks.skip(toks.len() - (toks.len() - 1)));
    } else if toks.len() > 1 && toks[0] is Comma && toks[1] is RBrace {
        assert(toks.skip(2) =~= toks.skip(toks.len() - (toks.len() - 2)));
    } else {
        let t = if toks.len() > 0 && toks[0] is Comma { toks.skip(1) } else { toks };
        if let Ok((t1, field)) = expect_ident_spec(t) {
            if let Ok(t2) = expect_spec(t1, TokenKind::Colon) {
                if let Ok((t3, ty)) = expect_ident_spec(t2) {
                    lemma_struct_fields(t3, acc.push((field, ty)));
                    if let Ok((_, rest)) = struct_fields_spec(t3, acc.push((field, ty))) {
                        assert(t3 =~= toks.skip(toks.len() - t3.len()));
                        assert(rest =~= toks.skip(toks.len() - rest.len()));
                    }
                }
            }
        }
    }
}

proof fn lemma_struct_def(p: SpecParser)
    ensures
        sound(p, struct_def_spec(p)),
{
    lemma_expect_ident(p);
    if let Ok((t1, name)) = expect_ident_spec(p.tokens) {
        let p1 = with_tokens(p, t1);
        lemma_expect(p1, TokenKind::LBrace);
        if let Ok(t2) = expect_spec(t1, TokenKind::LBrace) {
            let p2 = with_tokens(p, t2);
            lemma_keeps_trans(p, p1, p2);
            lemma_struct_fields(t2, Seq::empty());
            if let Ok((content, rest)) = struct_fields_spec(t2, Seq::empty()) {
                assert(keeps(p2, with_tokens(p, rest)));
                lemma_keeps_trans(p, p2, with_tokens(p, rest));
            }
        }
    }
}

proof fn lemma_file(p: SpecParser, acc: Seq<SpecExpression>)
    ensures
        sound(p, file_spec(p, acc)),
        file_spec(p, acc) matches Ok((_, q)) ==> q.tokens.len() == 0,
    decreases p.tokens.len(),
{
    if p.tokens.len() == 0 {
        lemma_keeps_refl(p);
    } else {
        lemma_parse(p);
        if let Ok((e, q)) = parse_spec(p) {
            if q.tokens.len() < p.tokens.len() {
                lemma_file(q, acc.push(e));
                lemma_chain(p, q, file_spec(q, acc.push(e)));
            }
        }
    }
}

/// Parsing a statement leaves a suffix of the tokens and a store of the same
/// length; and when every string token refers into the store, parsing never
/// stops on a string index outside it.
pub proof fn statements_keep_tokens_and_store(p: SpecParser)
    ensures
        parse_spec(p) matches Ok((_, q)) ==> keeps(p, q),
        strings_in_store(p) ==> no_index_panic(parse_spec(p)),
{
    lemma_parse(p);
}

/// Parsing a whole file reads every token when it succeeds, keeps the store's
/// length, and never stops on a string index outside the store when the
/// string tokens refer into it.
pub proof fn file_parse_reads_every_token(p: SpecParser)
    ensures
        file_spec(p, Seq::empty()) matches Ok((_, q)) ==> q.tokens.len() == 0 && q.store.len() == p.store.len(),
        strings_in_store(p) ==> no_index_panic(file_spec(p, Seq::empty())),
{
    lemma_file(p, Seq::empty());
}

/// Parsing the file that the lexer gives, with the string table it leaves as
/// the store, never stops on a string index outside the store.
pub proof fn lexed_file_strings_are_in_store(s: Seq<char>, t: Seq<Seq<char>>)
    ensures
        no_index_panic(file_spec(SpecParser { tokens: lex(s, t).tokens, store: lex(s, t).table }, Seq::empty())),
{
    lexing_extends_table(s, t);
    lemma_file(SpecParser { tokens: lex(s, t).tokens, store: lex(s, t).table }, Seq::empty());
}


/// Whether the parsers `ps[i]` read the statements `es[i]` one after another,
/// leaving `qs[i]`: each step consumes tokens, and the next one starts where
/// the last one stopped, none of them at a `}`.
pub open spec fn statements_in_sequence(ps: Seq<SpecParser>, qs: Seq<SpecParser>, es: Seq<SpecExpression>) -> bool {
    &&& ps.len() == es.len()
    &&& qs.len() == es.len()
    &&& forall|i: int| 0 <= i < es.len() ==> #[trigger] parse_spec(ps[i]) == Ok::<(SpecExpression, SpecParser), SpecHalt>((es[i], qs[i]))
    &&& forall|i: int| 0 <= i < es.len() ==> (#[trigger] qs[i]).tokens.len() < ps[i].tokens.len()
    &&& forall|i: int| 0 <= i < es.len() ==> (#[trigger] ps[i]).tokens.len() > 0 && !(ps[i].tokens[0] is RBrace)
    &&& forall|i: int| 0 <= i < es.len() - 1 ==> ps[i + 1] == #[trigger] qs[i]
}

proof fn lemma_block_in_sequence(ps: Seq<SpecParser>, qs: Seq<SpecParser>, es: Seq<SpecExpression>, k: int, last: SpecParser)
    requires
        statements_in_sequence(ps, qs, es),
        0 <= k < es.len(),
        last == qs[es.len() - 1],
        last.tokens.len() > 0,
        last.tokens[0] is RBrace,
    ensures
        block_items_spec(ps[k], es.take(k)) == Ok::<(Seq<SpecExpression>, SpecParser), SpecHalt>((es, skip(last, 1))),
    decreases es.len() - k,
{
    let n = es.len() as int;
    assert(parse_spec(ps[k]) == Ok::<(SpecExpression, SpecParser), SpecHalt>((es[k], qs[k])));
    assert(qs[k].tokens.len() < ps[k].tokens.len());
    assert(ps[k].tokens.len() > 0 && !(ps[k].tokens[0] is RBrace));
    assert(es.take(k).push(es[k]) =~= es.take(k + 1));
    assert(block_items_spec(ps[k], es.take(k)) == block_items_spec(qs[k], es.take(k + 1)));
    if k == n - 1 {
        assert(es.take(k + 1) =~= es);
        assert(block_items_spec(last, es) == Ok::<(Seq<SpecExpression>, SpecParser), SpecHalt>((es, skip(last, 1))));
    } else {
        assert(ps[k + 1] == qs[k]);
        lemma_block_in_sequence(ps, qs, es, k + 1, last);
    }
}

/// A block lists its statements in source order: when the tokens after `{`
/// read as the statements `es` one after another, followed by `}`, the block
/// holds exactly `es`, and parsing goes on after the `}`.
pub proof fn block_keeps_statement_order(p: SpecParser, ps: Seq<SpecParser>, qs: Seq<SpecParser>, es: Seq<SpecExpression>)
    requires
        p.tokens.len() >= 1,
        p.tokens[0] is LBrace,
        statements_in_sequence(ps, qs, es),
        es.len() == 0 ==> p.tokens.len() >= 2 && p.tokens[1] is RBrace,
        es.len() > 0 ==> ps[0] == skip(p, 1) && qs[es.len() - 1].tokens.len() > 0 && qs[es.len() - 1].tokens[0] is RBrace,
    ensures
        parse_spec(p) == Ok::<(SpecExpression, SpecParser), SpecHalt>((
            SpecExpression::Block { content: es },
            if es.len() == 0 { skip(p, 2) } else { skip(qs[es.len() - 1], 1) },
        )),
{
    let q = skip(p, 1);
    assert(q.tokens.len() > 0 ==> q.tokens[0] == p.tokens[1]);
    assert(skip(q, 1) == skip(p, 2)) by {
        assert(q.tokens.skip(1) =~= p.tokens.skip(2));
    }
    assert(parse_spec(p) == block_spec(p));
    assert(expect_spec(p.tokens, TokenKind::LBrace) == Ok::<Seq<SpecToken>, SpecHalt>(p.tokens.skip(1)));
    assert(with_tokens(p, p.tokens.skip(1)) == q);
    if es.len() > 0 {
        assert(es.take(0) =~= Seq::<SpecExpression>::empty());
        lemma_block_in_sequence(ps, qs, es, 0, qs[es.len() - 1]);
        assert(block_items_spec(q, Seq::empty()) == Ok::<(Seq<SpecExpression>, SpecParser), SpecHalt>((es, skip(qs[es.len() - 1], 1))));
        assert(block_spec(p) == Ok::<(SpecExpression, SpecParser), SpecHalt>((SpecExpression::Block { content: es }, skip(qs[es.len() - 1], 1))));
    } else {
        assert(block_items_spec(q, Seq::empty()) == Ok::<(Seq<SpecExpression>, SpecParser), SpecHalt>((Seq::empty(), skip(p, 2))));
        assert(es =~= Seq::<SpecExpression>::empty());
        assert(block_spec(p) == Ok::<(SpecExpression, SpecParser), SpecHalt>((SpecExpression::Block { content: es }, skip(p, 2))));
    }
}

/// Whether the parsers `ps[i]` read the expressions `es[i]` one after another,
/// leaving `qs[i]`: each step consumes tokens, and after each but the last
/// comes a comma, after which the next starts.
pub open spec fn arguments_in_turn(ps: Seq<SpecParser>, qs: Seq<SpecParser>, es: Seq<SpecExpression>) -> bool {
    &&& ps.len() == es.len()
    &&& qs.len() == es.len()
    &&& forall|i: int| 0 <= i < es.len() ==> #[trigger] parse_spec(ps[i]) == Ok::<(SpecExpression, SpecParser), SpecHalt>((es[i], qs[i]))
    &&& forall|i: int| 0 <= i < es.len() ==> (#[trigger] qs[i]).tokens.len() < ps[i].tokens.len()
    &&& forall|i: int| 0 <= i < es.len() - 1 ==> (#[trigger] qs[i]).tokens.len() > 0 && qs[i].tokens[0] is Comma && ps[i + 1] == skip(qs[i], 1)
}

proof fn lemma_arguments_in_turn(ps: Seq<SpecParser>, qs: Seq<SpecParser>, es: Seq<SpecExpression>, k: int)
    requires
        arguments_in_turn(ps, qs, es),
        0 <= k < es.len(),
        qs[es.len() - 1].tokens.len() > 0,
        qs[es.len() - 1].tokens[0] is RParen,
    ensures
        call_arguments_spec(ps[k], es.take(k)) == Ok::<(Seq<SpecExpression>, SpecParser), SpecHalt>((es, skip(qs[es.len() - 1], 1))),
    decreases es.len() - k,
{
    let n = es.len() as int;
    assert(parse_spec(ps[k]) == Ok::<(SpecExpression, SpecParser), SpecHalt>((es[k], qs[k])));
    assert(qs[k].tokens.len() < ps[k].tokens.len());
    assert(ps[k].tokens.len() > 0 && !(ps[k].tokens[0] is RParen) && !(ps[k].tokens[0] is Comma)) by {
        if ps[k].tokens.len() == 0 || ps[k].tokens[0] is RParen || ps[k].tokens[0] is Comma {
            assert(parse_spec(ps[k]) is Err);
        }
    }
    assert(es.take(k).push(es[k]) =~= es.take(k + 1));
    assert(call_arguments_spec(ps[k], es.take(k)) == call_arguments_spec(qs[k], es.take(k + 1)));
    if k == n - 1 {
        assert(es.take(k + 1) =~= es);
        assert(call_arguments_spec(qs[k], es) == Ok::<(Seq<SpecExpression>, SpecParser), SpecHalt>((es, skip(qs[k], 1))));
    } else {
        assert(qs[k].tokens.len() > 0 && qs[k].tokens[0] is Comma && ps[k + 1] == skip(qs[k], 1));
        assert(call_arguments_spec(qs[k], es.take(k + 1)) == call_arguments_spec(ps[k + 1], es.take(k + 1)));
        lemma_arguments_in_turn(ps, qs, es, k + 1);
    }
}

/// A call keeps all its arguments, in order: when the tokens after `name(`
/// read as the expressions `es` one after another, separated by commas and
/// followed by `)`, the call is `name` with exactly the arguments `es`, and
/// parsing goes on after the `)`.
pub proof fn call_keeps_its_arguments(p: SpecParser, name: Seq<char>, ps: Seq<SpecParser>, qs: Seq<SpecParser>, es: Seq<SpecExpression>)
    requires
        p.tokens.len() >= 2,
        p.tokens[0] == SpecToken::Ident(name),
        p.tokens[1] is LParen,
        arguments_in_turn(ps, qs, es),
        es.len() == 0 ==> p.tokens.len() >= 3 && p.tokens[2] is RParen,
        es.len() > 0 ==> ps[0] == skip(p, 2) && qs[es.len() - 1].tokens.len() > 0 && qs[es.len() - 1].tokens[0] is RParen,
    ensures
        parse_spec(p) == Ok::<(SpecExpression, SpecParser), SpecHalt>((
            SpecExpression::FunctionCall { name, arguments: es },
            if es.len() == 0 { skip(p, 3) } else { skip(qs[es.len() - 1], 1) },
        )),
{
    let q2 = skip(p, 2);
    assert(with_tokens(p, p.tokens.skip(1).skip(1)) == q2) by {
        assert(p.tokens.skip(1).skip(1) =~= p.tokens.skip(2));
    }
    assert(parse_spec(p) == ident_spec(p));
    assert(ident_spec(p) == function_call_spec(p));
    assert(expect_ident_spec(p.tokens) == Ok::<(Seq<SpecToken>, Seq<char>), SpecHalt>((p.tokens.skip(1), name)));
    assert(p.tokens.skip(1)[0] == p.tokens[1]);
    assert(expect_spec(p.tokens.skip(1), TokenKind::LParen) == Ok::<Seq<SpecToken>, SpecHalt>(p.tokens.skip(1).skip(1)));
    if es.len() > 0 {
        assert(es.take(0) =~= Seq::<SpecExpression>::empty());
        lemma_arguments_in_turn(ps, qs, es, 0);
        assert(call_arguments_spec(q2, Seq::empty()) == Ok::<(Seq<SpecExpression>, SpecParser), SpecHalt>((es, skip(qs[es.len() - 1], 1))));
        assert(function_call_spec(p) == Ok::<(SpecExpression, SpecParser), SpecHalt>((SpecExpression::FunctionCall { name, arguments: es }, skip(qs[es.len() - 1], 1))));
    } else {
        assert(skip(q2, 1) == skip(p, 3)) by {
            assert(p.tokens.skip(2).skip(1) =~= p.tokens.skip(3));
        }
        assert(q2.tokens[0] == p.tokens[2]);
        assert(call_arguments_spec(q2, Seq::empty()) == Ok::<(Seq<SpecExpression>, SpecParser), SpecHalt>((Seq::empty(), skip(p, 3))));
        assert(es =~= Seq::<SpecExpression>::empty());
        assert(function_call_spec(p) == Ok::<(SpecExpression, SpecParser), SpecHalt>((SpecExpression::FunctionCall { name, arguments: es }, skip(p, 3))));
    }
}

/// The tokens of the fields `fs` of a struct: `name : Type`, with a comma
/// between each two.
pub open spec fn field_tokens(fs: Seq<(Seq<char>, Seq<char>)>) -> Seq<SpecToken>
    decreases fs.len(),
{
    if fs.len() == 0 {
        Seq::empty()
    } else {
        seq![SpecToken::Ident(fs[0].0), SpecToken::Colon, SpecToken::Ident(fs[0].1)]
            + if fs.len() > 1 { seq![SpecToken::Comma] + field_tokens(fs.drop_first()) } else { Seq::empty() }
    }
}

proof fn lemma_comma_before_field(toks: Seq<SpecToken>, acc: Seq<(Seq<char>, Seq<char>)>)
    requires
        toks.len() > 0,
        toks[0] is Ident,
    ensures
        struct_fields_spec(seq![SpecToken::Comma] + toks, acc) == struct_fields_spec(toks, acc),
{
    let c = seq![SpecToken::Comma] + toks;
    assert(c.skip(1) =~= toks);
    assert(c[1] == toks[0]);
}

proof fn lemma_fields(fs: Seq<(Seq<char>, Seq<char>)>, acc: Seq<(Seq<char>, Seq<char>)>, trailing: bool, rest: Seq<SpecToken>)
    ensures
        ({
            let tail = (if trailing { seq![SpecToken::Comma] } else { Seq::empty() }) + seq![SpecToken::RBrace] + rest;
            struct_fields_spec(field_tokens(fs) + tail, acc) == Ok::<(Seq<(Seq<char>, Seq<char>)>, Seq<SpecToken>), SpecHalt>((acc + fs, rest))
        }),
    decreases fs.len(),
{
    let tail = (if trailing { seq![SpecToken::Comma] } else { Seq::empty() }) + seq![SpecToken::RBrace] + rest;
    if fs.len() == 0 {
        assert(field_tokens(fs) + tail =~= tail);
        assert(acc + fs =~= acc);
        if trailing {
            assert(tail[0] is Comma && tail[1] is RBrace);
            assert(tail.skip(2) =~= rest);
        } else {
            assert(tail[0] is RBrace);
            assert(tail.skip(1) =~= rest);
        }
    } else {
        let f = fs[0];
        let more = fs.drop_first();
        let x = if fs.len() > 1 { seq![SpecToken::Comma] + field_tokens(more) } else { Seq::<SpecToken>::empty() };
        let toks = field_tokens(fs) + tail;
        assert(field_tokens(fs) == seq![SpecToken::Ident(f.0), SpecToken::Colon, SpecToken::Ident(f.1)] + x);
        let t3 = x + tail;
        assert(toks =~= seq![SpecToken::Ident(f.0), SpecToken::Colon, SpecToken::Ident(f.1)] + t3);
        assert(toks[0] == SpecToken::Ident(f.0));
        assert(toks.skip(1)[0] == SpecToken::Colon);
        assert(toks.skip(1).skip(1)[0] == SpecToken::Ident(f.1));
        assert(toks.skip(1).skip(1).skip(1) =~= t3);
        assert(acc.push(f) + more =~= acc + fs);
        assert(struct_fields_spec(toks, acc) == struct_fields_spec(t3, acc.push(f)));
        if fs.len() > 1 {
            lemma_fields(more, acc.push(f), trailing, rest);
            assert(more.len() > 0);
            let y = field_tokens(more) + tail;
            assert(field_tokens(more) == seq![SpecToken::Ident(more[0].0), SpecToken::Colon, SpecToken::Ident(more[0].1)]
                + if more.len() > 1 { seq![SpecToken::Comma] + field_tokens(more.drop_first()) } else { Seq::empty() });
            assert(y[0] == SpecToken::Ident(more[0].0));
            assert(t3 =~= seq![SpecToken::Comma] + y);
            lemma_comma_before_field(y, acc.push(f));
        } else {
            assert(more.len() == 0);
            assert(t3 =~= tail);
            lemma_fields(more, acc.push(f), trailing, rest);
            assert(field_tokens(more) + tail =~= tail);
        }
    }
}

/// A struct declaration holds every `name: Type` field, in order, with or
/// without a comma after the last one: `struct Name { f1: T1, ..., fn: Tn }`
/// (or with `,` before `}`) gives the fields `[(f1, T1), ..., (fn, Tn)]`, and
/// parsing goes on after the `}`.
pub proof fn struct_keeps_its_fields(p: SpecParser, name: Seq<char>, fs: Seq<(Seq<char>, Seq<char>)>, trailing: bool, rest: Seq<SpecToken>)
    requires
        p.tokens == seq![SpecToken::StructDefinition, SpecToken::Ident(name), SpecToken::LBrace] + field_tokens(fs)
            + (if trailing { seq![SpecToken::Comma] } else { Seq::empty() }) + seq![SpecToken::RBrace] + rest,
    ensures
        parse_spec(p) == Ok::<(SpecExpression, SpecParser), SpecHalt>((
            SpecExpression::StructDeclaration { name, content: fs },
            SpecParser { tokens: rest, store: p.store },
        )),
{
    let tail = (if trailing { seq![SpecToken::Comma] } else { Seq::empty() }) + seq![SpecToken::RBrace] + rest;
    let body = field_tokens(fs) + tail;
    assert(p.tokens =~= seq![SpecToken::StructDefinition, SpecToken::Ident(name), SpecToken::LBrace] + body);
    let q = skip(p, 1);
    assert(q.tokens[0] == SpecToken::Ident(name));
    assert(q.tokens.skip(1)[0] == SpecToken::LBrace);
    assert(q.tokens.skip(1).skip(1) =~= body);
    lemma_fields(fs, Seq::empty(), trailing, rest);
    assert(Seq::<(Seq<char>, Seq<char>)>::empty() + fs =~= fs);
    assert(parse_spec(p) == struct_def_spec(q));
}


proof fn lemma_file_in_sequence(ps: Seq<SpecParser>, qs: Seq<SpecParser>, es: Seq<SpecExpression>, k: int)
    requires
        statements_in_sequence(ps, qs, es),
        0 <= k < es.len(),
        qs[es.len() - 1].tokens.len() == 0,
    ensures
        file_spec(ps[k], es.take(k)) == Ok::<(SpecExpression, SpecParser), SpecHalt>((SpecExpression::Block { content: es }, qs[es.len() - 1])),
    decreases es.len() - k,
{
    let n = es.len() as int;
    assert(parse_spec(ps[k]) == Ok::<(SpecExpression, SpecParser), SpecHalt>((es[k], qs[k])));
    assert(qs[k].tokens.len() < ps[k].tokens.len());
    assert(ps[k].tokens.len() > 0);
    assert(es.take(k).push(es[k]) =~= es.take(k + 1));
    assert(file_spec(ps[k], es.take(k)) == file_spec(qs[k], es.take(k + 1)));
    if k == n - 1 {
        assert(es.take(k + 1) =~= es);
    } else {
        assert(ps[k + 1] == qs[k]);
        lemma_file_in_sequence(ps, qs, es, k + 1);
    }
}

/// A file lists its statements in source order: when the tokens read as the
/// statements `es` one after another up to their end, the file is the block
/// of exactly `es`.
pub proof fn file_keeps_statement_order(p: SpecParser, ps: Seq<SpecParser>, qs: Seq<SpecParser>, es: Seq<SpecExpression>)
    requires
        statements_in_sequence(ps, qs, es),
        es.len() == 0 ==> p.tokens.len() == 0,
        es.len() > 0 ==> ps[0] == p && qs[es.len() - 1].tokens.len() == 0,
    ensures
        file_spec(p, Seq::empty()) == Ok::<(SpecExpression, SpecParser), SpecHalt>((
            SpecExpression::Block { content: es },
            if es.len() == 0 { p } else { qs[es.len() - 1] },
        )),
{
    if es.len() > 0 {
        assert(es.take(0) =~= Seq::<SpecExpression>::empty());
        lemma_file_in_sequence(ps, qs, es, 0);
    } else {
        assert(es =~= Seq::<SpecExpression>::empty());
    }
}

/// A declaration binds its name to the statement after `=`: when the tokens
/// after `let x =` read as a value `e` (anything but `;`), leaving `q`, the
/// declaration is `x` bound to `e`, and parsing goes on at `q`.
pub proof fn let_binds_its_value(p: SpecParser, x: Seq<char>, e: SpecExpression, q: SpecParser)
    requires
        p.tokens.len() >= 3,
        p.tokens[0] is Let,
        p.tokens[1] == SpecToken::Ident(x),
        p.tokens[2] is Equals,
        parse_spec(skip(p, 3)) == Ok::<(SpecExpression, SpecParser), SpecHalt>((e, q)),
        !(e is SemiColon),
    ensures
        parse_spec(p) == Ok::<(SpecExpression, SpecParser), SpecHalt>((SpecExpression::VariableDeclaration { name: x, value: Box::new(e) }, q)),
{
    assert(p.tokens.skip(1)[0] == p.tokens[1]);
    assert(p.tokens.skip(1).skip(1)[0] == p.tokens[2]);
    assert(with_tokens(p, p.tokens.skip(1).skip(1).skip(1)) == skip(p, 3)) by {
        assert(p.tokens.skip(1).skip(1).skip(1) =~= p.tokens.skip(3));
    }
    assert(parse_spec(p) == let_spec(p));
    assert(value_spec(skip(p, 3)) == Ok::<(SpecExpression, SpecParser), SpecHalt>((e, q)));
}

/// An assignment sets its name to the statement after `=`: when the tokens
/// after `x =` read as a value `e` (anything but `;`), leaving `q`, the
/// assignment is `x` set to `e`, and parsing goes on at `q`.
pub proof fn assignment_sets_its_value(p: SpecParser, x: Seq<char>, e: SpecExpression, q: SpecParser)
    requires
        p.tokens.len() >= 2,
        p.tokens[0] == SpecToken::Ident(x),
        p.tokens[1] is Equals,
        parse_spec(skip(p, 2)) == Ok::<(SpecExpression, SpecParser), SpecHalt>((e, q)),
        !(e is SemiColon),
    ensures
        parse_spec(p) == Ok::<(SpecExpression, SpecParser), SpecHalt>((SpecExpression::VariableAssignment { name: x, value: Box::new(e) }, q)),
{
    assert(p.tokens.skip(1)[0] == p.tokens[1]);
    assert(with_tokens(p, p.tokens.skip(1).skip(1)) == skip(p, 2)) by {
        assert(p.tokens.skip(1).skip(1) =~= p.tokens.skip(2));
    }
    assert(parse_spec(p) == ident_spec(p));
    assert(ident_spec(p) == assignment_spec(p));
    assert(value_spec(skip(p, 2)) == Ok::<(SpecExpression, SpecParser), SpecHalt>((e, q)));
}

/// The tokens of an enum member: `Name`, or `Name(Type)`.
pub open spec fn member_tokens(m: SpecMember) -> Seq<SpecToken> {
    match m {
        SpecMember::Simple(n) => seq![SpecToken::Ident(n)],
        SpecMember::Variable(n, ty) => seq![SpecToken::Ident(n), SpecToken::LParen, SpecToken::Ident(ty), SpecToken::RParen],
        SpecMember::Complex { name, .. } => seq![SpecToken::Ident(name)],
    }
}

/// The tokens of the members `ms` of an enum, with a comma between each two.
pub open spec fn member_list_tokens(ms: Seq<SpecMember>) -> Seq<SpecToken>
    decreases ms.len(),
{
    if ms.len() == 0 {
        Seq::empty()
    } else {
        member_tokens(ms[0]) + if ms.len() > 1 { seq![SpecToken::Comma] + member_list_tokens(ms.drop_first()) } else { Seq::empty() }
    }
}

proof fn lemma_member(p: SpecParser, m: SpecMember, after: Seq<SpecToken>)
    requires
        !(m is Complex),
        p.tokens == member_tokens(m) + after,
        after.len() > 0,
        after[0] is Comma || after[0] is RBrace,
    ensures
        enum_member_spec(p) == Ok::<(SpecMember, SpecParser), SpecHalt>((m, with_tokens(p, after))),
{
    let t = p.tokens;
    match m {
        SpecMember::Simple(n) => {
            assert(t[0] == SpecToken::Ident(n));
            assert(t.skip(1) =~= after);
        },
        SpecMember::Variable(n, ty) => {
            assert(t[0] == SpecToken::Ident(n));
            assert(t.skip(1)[0] == SpecToken::LParen);
            assert(t.skip(1).skip(1)[0] == SpecToken::Ident(ty));
            assert(t.skip(1).skip(1).skip(1)[0] == SpecToken::RParen);
            assert(t.skip(1).skip(1).skip(1).skip(1) =~= after);
        },
        SpecMember::Complex { .. } => {},
    }
}

proof fn lemma_members(store: Seq<Seq<char>>, ms: Seq<SpecMember>, acc: Seq<SpecMember>, trailing: bool, rest: Seq<SpecToken>)
    requires
        forall|i: int| 0 <= i < ms.len() ==> !(#[trigger] ms[i] is Complex),
    ensures
        ({
            let tail = (if trailing { seq![SpecToken::Comma] } else { Seq::empty() }) + seq![SpecToken::RBrace] + rest;
            enum_members_spec(SpecParser { tokens: member_list_tokens(ms) + tail, store }, acc)
                == Ok::<(Seq<SpecMember>, SpecParser), SpecHalt>((acc + ms, SpecParser { tokens: rest, store }))
        }),
    decreases ms.len(),
{
    let tail = (if trailing { seq![SpecToken::Comma] } else { Seq::empty() }) + seq![SpecToken::RBrace] + rest;
    let end = seq![SpecToken::RBrace] + rest;
    assert(end[0] is RBrace);
    assert(end.skip(1) =~= rest);
    assert(enum_members_spec(SpecParser { tokens: end, store }, acc) == Ok::<(Seq<SpecMember>, SpecParser), SpecHalt>((acc, SpecParser { tokens: rest, store })));
    if trailing {
        assert(tail[0] is Comma);
        assert(tail.skip(1) =~= end);
        assert(enum_members_spec(SpecParser { tokens: tail, store }, acc) == enum_members_spec(SpecParser { tokens: end, store }, acc));
    } else {
        assert(tail =~= end);
    }
    if ms.len() == 0 {
        assert(member_list_tokens(ms) + tail =~= tail);
        assert(acc + ms =~= acc);
    } else {
        let m = ms[0];
        let more = ms.drop_first();
        assert(!(m is Complex));
        let x = if ms.len() > 1 { seq![SpecToken::Comma] + member_list_tokens(more) } else { Seq::<SpecToken>::empty() };
        let after = x + tail;
        let toks = member_list_tokens(ms) + tail;
        assert(toks =~= member_tokens(m) + after);
        let p = SpecParser { tokens: toks, store };
        assert(member_tokens(m).len() > 0);
        assert(toks[0] == member_tokens(m)[0]);
        assert(after.len() > 0 && (after[0] is Comma || after[0] is RBrace));
        lemma_member(p, m, after);
        assert(acc.push(m) + more =~= acc + ms);
        assert(enum_members_spec(p, acc) == enum_members_spec(SpecParser { tokens: after, store }, acc.push(m)));
        if ms.len() > 1 {
            lemma_members(store, more, acc.push(m), trailing, rest);
            assert(after[0] is Comma);
            assert(after.skip(1) =~= member_list_tokens(more) + tail);
            assert(enum_members_spec(SpecParser { tokens: after, store }, acc.push(m))
                == enum_members_spec(SpecParser { tokens: member_list_tokens(more) + tail, store }, acc.push(m)));
        } else {
            assert(after =~= tail);
            assert(more.len() == 0);
            assert(acc.push(m) =~= acc + ms);
        }
    }
}

/// An enum declaration holds every member, in order, with or without a comma
/// after the last one: `enum Name { m1, ..., mk }` (each `Name` or
/// `Name(Type)`, or with `,` before `}`) gives the members `[m1, ..., mk]`,
/// and parsing goes on after the `}`.
pub proof fn enum_keeps_its_members(p: SpecParser, name: Seq<char>, ms: Seq<SpecMember>, trailing: bool, rest: Seq<SpecToken>)
    requires
        forall|i: int| 0 <= i < ms.len() ==> !(#[trigger] ms[i] is Complex),
        p.tokens == seq![SpecToken::EnumDefinition, SpecToken::Ident(name), SpecToken::LBrace] + member_list_tokens(ms)
            + (if trailing { seq![SpecToken::Comma] } else { Seq::empty() }) + seq![SpecToken::RBrace] + rest,
    ensures
        parse_spec(p) == Ok::<(SpecExpression, SpecParser), SpecHalt>((
            SpecExpression::EnumDeclaration { name, members: ms },
            SpecParser { tokens: rest, store: p.store },
        )),
{
    let tail = (if trailing { seq![SpecToken::Comma] } else { Seq::empty() }) + seq![SpecToken::RBrace] + rest;
    let body = member_list_tokens(ms) + tail;
    assert(p.tokens =~= seq![SpecToken::EnumDefinition, SpecToken::Ident(name), SpecToken::LBrace] + body);
    assert(p.tokens.skip(1)[0] == SpecToken::Ident(name));
    assert(p.tokens.skip(1).skip(1)[0] == SpecToken::LBrace);
    assert(p.tokens.skip(1).skip(1).skip(1) =~= body);
    lemma_members(p.store, ms, Seq::empty(), trailing, rest);
    assert(Seq::<SpecMember>::empty() + ms =~= ms);
    assert(with_tokens(p, body) == SpecParser { tokens: body, store: p.store });
    assert(parse_spec(p) == enum_def_spec(p));
}


/// Whether the parsers `ps[i]` read the parameters `names[i]: es[i]` one after
/// another, leaving `qs[i]`: each is a name and `:`, then a value that starts
/// with neither a name nor punctuation and is read from there; after each but
/// the last comes a comma, after which the next starts.
pub open spec fn parameters_in_turn(ps: Seq<SpecParser>, qs: Seq<SpecParser>, names: Seq<Seq<char>>, es: Seq<SpecExpression>) -> bool {
    &&& ps.len() == es.len()
    &&& qs.len() == es.len()
    &&& names.len() == es.len()
    &&& forall|i: int| 0 <= i < es.len() ==> (#[trigger] ps[i]).tokens.len() >= 3 && ps[i].tokens[0] == SpecToken::Ident(names[i])
        && ps[i].tokens[1] is Colon && !(ps[i].tokens[2] is Ident) && !(ps[i].tokens[2] is Comma) && !(ps[i].tokens[2] is Colon)
        && !(ps[i].tokens[2] is RParen)
    &&& forall|i: int| 0 <= i < es.len() ==> #[trigger] parse_spec(skip(ps[i], 2)) == Ok::<(SpecExpression, SpecParser), SpecHalt>((es[i], qs[i]))
    &&& forall|i: int| 0 <= i < es.len() ==> (#[trigger] qs[i]).tokens.len() < ps[i].tokens.len() - 2
    &&& forall|i: int| 0 <= i < es.len() - 1 ==> (#[trigger] qs[i]).tokens.len() > 0 && qs[i].tokens[0] is Comma && ps[i + 1] == skip(qs[i], 1)
}

/// The names paired with the values.
pub open spec fn named_values(names: Seq<Seq<char>>, es: Seq<SpecExpression>) -> Seq<(Seq<char>, SpecExpression)> {
    Seq::new(es.len(), |i: int| (names[i], es[i]))
}

proof fn lemma_parameters_in_turn(ps: Seq<SpecParser>, qs: Seq<SpecParser>, names: Seq<Seq<char>>, es: Seq<SpecExpression>, k: int)
    requires
        parameters_in_turn(ps, qs, names, es),
        0 <= k < es.len(),
        qs[es.len() - 1].tokens.len() > 0,
        qs[es.len() - 1].tokens[0] is RParen,
    ensures
        parameters_spec(ps[k], named_values(names, es).take(k), None)
            == Ok::<(Seq<(Seq<char>, SpecExpression)>, SpecParser), SpecHalt>((named_values(names, es), skip(qs[es.len() - 1], 1))),
    decreases es.len() - k,
{
    let n = es.len() as int;
    let pk = ps[k];
    let acc = named_values(names, es).take(k);
    assert(pk.tokens.len() >= 3 && pk.tokens[0] == SpecToken::Ident(names[k]) && pk.tokens[1] is Colon);
    let p1 = skip(pk, 1);
    let p2 = skip(pk, 2);
    assert(p1.tokens[0] == pk.tokens[1]);
    assert(skip(p1, 1) == p2) by {
        assert(pk.tokens.skip(1).skip(1) =~= pk.tokens.skip(2));
    }
    assert(p2.tokens[0] == pk.tokens[2]);
    assert(parse_spec(p2) == Ok::<(SpecExpression, SpecParser), SpecHalt>((es[k], qs[k])));
    assert(qs[k].tokens.len() < p2.tokens.len());
    assert(parameters_spec(pk, acc, None) == parameters_spec(p1, acc, Some(names[k])));
    assert(parameters_spec(p1, acc, Some(names[k])) == parameters_spec(p2, acc, Some(names[k])));
    assert(acc.push((names[k], es[k])) =~= named_values(names, es).take(k + 1));
    assert(parameters_spec(p2, acc, Some(names[k])) == parameters_spec(qs[k], named_values(names, es).take(k + 1), None));
    if k == n - 1 {
        assert(named_values(names, es).take(k + 1) =~= named_values(names, es));
    } else {
        assert(qs[k].tokens.len() > 0 && qs[k].tokens[0] is Comma && ps[k + 1] == skip(qs[k], 1));
        lemma_parameters_in_turn(ps, qs, names, es, k + 1);
    }
}

/// A function declaration holds every parameter, in order, and the body after
/// them: `fn name(n1: v1, ..., nk: vk)` followed by a body gives the name, the
/// pairs `(ni, vi)` as read, and the body as read after the `)`.
pub proof fn function_declaration_keeps_its_parameters(
    p: SpecParser,
    name: Seq<char>,
    ps: Seq<SpecParser>,
    qs: Seq<SpecParser>,
    names: Seq<Seq<char>>,
    es: Seq<SpecExpression>,
    body: SpecExpression,
    r: SpecParser,
)
    requires
        p.tokens.len() >= 3,
        p.tokens[0] is Fn,
        p.tokens[1] == SpecToken::Ident(name),
        p.tokens[2] is LParen,
        parameters_in_turn(ps, qs, names, es),
        es.len() == 0 ==> p.tokens.len() >= 4 && p.tokens[3] is RParen && parse_spec(skip(p, 4)) == Ok::<(SpecExpression, SpecParser), SpecHalt>((body, r)),
        es.len() > 0 ==> ps[0] == skip(p, 3) && qs[es.len() - 1].tokens.len() > 0 && qs[es.len() - 1].tokens[0] is RParen
            && parse_spec(skip(qs[es.len() - 1], 1)) == Ok::<(SpecExpression, SpecParser), SpecHalt>((body, r)),
    ensures
        parse_spec(p) == Ok::<(SpecExpression, SpecParser), SpecHalt>((
            SpecExpression::FunctionDeclaration { name, arguments: named_values(names, es), body: Box::new(body) },
            r,
        )),
{
    let t = p.tokens;
    assert(t.skip(1)[0] == t[1]);
    assert(t.skip(1).skip(1)[0] == t[2]);
    assert(with_tokens(p, t.skip(1).skip(1).skip(1)) == skip(p, 3)) by {
        assert(t.skip(1).skip(1).skip(1) =~= t.skip(3));
    }
    assert(parse_spec(p) == function_def_spec(p));
    if es.len() > 0 {
        assert(named_values(names, es).take(0) =~= Seq::<(Seq<char>, SpecExpression)>::empty());
        lemma_parameters_in_turn(ps, qs, names, es, 0);
        lemma_parse(skip(qs[es.len() - 1], 1));
        let last = qs[es.len() - 1];
        assert(skip(last, 1).tokens.len() < p.tokens.len()) by {
            lemma_parameters_keep(ps, qs, names, es, 0);
        }
    } else {
        let q3 = skip(p, 3);
        assert(q3.tokens[0] == t[3]);
        assert(skip(q3, 1) == skip(p, 4)) by {
            assert(t.skip(3).skip(1) =~= t.skip(4));
        }
        assert(parameters_spec(q3, Seq::empty(), None) == Ok::<(Seq<(Seq<char>, SpecExpression)>, SpecParser), SpecHalt>((Seq::empty(), skip(p, 4))));
        assert(named_values(names, es) =~= Seq::<(Seq<char>, SpecExpression)>::empty());
    }
}

proof fn lemma_parameters_keep(ps: Seq<SpecParser>, qs: Seq<SpecParser>, names: Seq<Seq<char>>, es: Seq<SpecExpression>, k: int)
    requires
        parameters_in_turn(ps, qs, names, es),
        0 <= k < es.len(),
    ensures
        qs[es.len() - 1].tokens.len() < ps[k].tokens.len(),
    decreases es.len() - k,
{
    assert(qs[k].tokens.len() < ps[k].tokens.len() - 2);
    if k < es.len() - 1 {
        assert(qs[k].tokens.len() > 0 && ps[k + 1] == skip(qs[k], 1));
        lemma_parameters_keep(ps, qs, names, es, k + 1);
    }
}

} // verus!

//! Tokens produced by the lexer and consumed by the parsers.
use vstd::prelude::*;

verus! {

/// A lexical token.
///
/// A floating-point literal is kept as its source text (for example `3.25`);
/// turning it into a number is left to the caller.
#[derive(Clone, Debug, PartialEq)]
pub enum Token {
    Fn,
    StringIndex(usize),
    Integer(i128),
    Float(String),
    Ident(String),
    Let,
    EnumDefinition,
    StructDefinition,
    Return,
    LParen,
    RParen,
    LBrace,
    RBrace,
    LBracket,
    RBracket,
    Equals,
    Comma,
    Colon,
    SemiColon,
    FatArrow,
    Arrow,
    Apostrophe,
    Namespace,
    Not,
    Plus,
    Minus,
    Multiply,
    Divide,
    Modulo,
    Less,
    Greater,
    AndCmp,
    OrCmp,
    QuestionMark,
    /// A function's name where the function is defined.
    FnDefinition(String),
    /// A function's name where the function is called.
    FnCall(String),
}

/// The mathematical value of a [`Token`]: strings are sequences of characters.
pub enum SpecToken {
    Fn,
    StringIndex(usize),
    Integer(i128),
    Float(Seq<char>),
    Ident(Seq<char>),
    Let,
    EnumDefinition,
    StructDefinition,
    Return,
    LParen,
    RParen,
    LBrace,
    RBrace,
    LBracket,
    RBracket,
    Equals,
    Comma,
    Colon,
    SemiColon,
    FatArrow,
    Arrow,
    Apostrophe,
    Namespace,
    Not,
    Plus,
    Minus,
    Multiply,
    Divide,
    Modulo,
    Less,
    Greater,
    AndCmp,
    OrCmp,
    QuestionMark,
    FnDefinition(Seq<char>),
    FnCall(Seq<char>),
}

impl View for Token {
    type V = SpecToken;

    open spec fn view(&self) -> SpecToken {
        match self {
            Token::Fn => SpecToken::Fn,
            Token::StringIndex(i) => SpecToken::StringIndex(*i),
            Token::Integer(n) => SpecToken::Integer(*n),
            Token::Float(s) => SpecToken::Float(s@),
            Token::Ident(s) => SpecToken::Ident(s@),
            Token::Let => SpecToken::Let,
            Token::EnumDefinition => SpecToken::EnumDefinition,
            Token::StructDefinition => SpecToken::StructDefinition,
            Token::Return => SpecToken::Return,
            Token::LParen => SpecToken::LParen,
            Token::RParen => SpecToken::RParen,
            Token::LBrace => SpecToken::LBrace,
            Token::RBrace => SpecToken::RBrace,
            Token::LBracket => SpecToken::LBracket,
            Token::RBracket => SpecToken::RBracket,
            Token::Equals => SpecToken::Equals,
            Token::Comma => SpecToken::Comma,
            Token::Colon => SpecToken::Colon,
            Token::SemiColon => SpecToken::SemiColon,
            Token::FatArrow => SpecToken::FatArrow,
            Token::Arrow => SpecToken::Arrow,
            Token::Apostrophe => SpecToken::Apostrophe,
            Token::Namespace => SpecToken::Namespace,
            Token::Not => SpecToken::Not,
            Token::Plus => SpecToken::Plus,
            Token::Minus => SpecToken::Minus,
            Token::Multiply => SpecToken::Multiply,
            Token::Divide => SpecToken::Divide,
            Token::Modulo => SpecToken::Modulo,
            Token::Less => SpecToken::Less,
            Token::Greater => SpecToken::Greater,
            Token::AndCmp => SpecToken::AndCmp,
            Token::OrCmp => SpecToken::OrCmp,
            Token::QuestionMark => SpecToken::QuestionMark,
            Token::FnDefinition(s) => SpecToken::FnDefinition(s@),
            Token::FnCall(s) => SpecToken::FnCall(s@),
        }
    }
}

/// The values of a sequence of tokens.
pub open spec fn tokens_view(s: Seq<Token>) -> Seq<SpecToken> {
    s.map_values(|t: Token| t@)
}

/// The values of a sequence of strings.
pub open spec fn strings_view(s: Seq<String>) -> Seq<Seq<char>> {
    s.map_values(|x: String| x@)
}

/// The variant of a token, without its payload.
#[derive(Clone, Copy, Debug, PartialEq, Eq, Structural)]
pub enum TokenKind {
    Fn,
    StringIndex,
    Integer,
    Float,
    Ident,
    Let,
    EnumDefinition,
    StructDefinition,
    Return,
    LParen,
    RParen,
    LBrace,
    RBrace,
    LBracket,
    RBracket,
    Equals,
    Comma,
    Colon,
    SemiColon,
    FatArrow,
    Arrow,
    Apostrophe,
    Namespace,
    Not,
    Plus,
    Minus,
    Multiply,
    Divide,
    Modulo,
    Less,
    Greater,
    AndCmp,
    OrCmp,
    QuestionMark,
    FnDefinition,
    FnCall,
}

/// The variant of a token value.
pub open spec fn kind_of(t: SpecToken) -> TokenKind {
    match t {
        SpecToken::Fn => TokenKind::Fn,
        SpecToken::StringIndex(_) => TokenKind::StringIndex,
        SpecToken::Integer(_) => TokenKind::Integer,
        SpecToken::Float(_) => TokenKind::Float,
        SpecToken::Ident(_) => TokenKind::Ident,
        SpecToken::Let => TokenKind::Let,
        SpecToken::EnumDefinition => TokenKind::EnumDefinition,
        SpecToken::StructDefinition => TokenKind::StructDefinition,
        SpecToken::Return => TokenKind::Return,
        SpecToken::LParen => TokenKind::LParen,
        SpecToken::RParen => TokenKind::RParen,
        SpecToken::LBrace => TokenKind::LBrace,
        SpecToken::RBrace => TokenKind::RBrace,
        SpecToken::LBracket => TokenKind::LBracket,
        SpecToken::RBracket => TokenKind::RBracket,
        SpecToken::Equals => TokenKind::Equals,
        SpecToken::Comma => TokenKind::Comma,
        SpecToken::Colon => TokenKind::Colon,
        SpecToken::SemiColon => TokenKind::SemiColon,
        SpecToken::FatArrow => TokenKind::FatArrow,
        SpecToken::Arrow => TokenKind::Arrow,
        SpecToken::Apostrophe => TokenKind::Apostrophe,
        SpecToken::Namespace => TokenKind::Namespace,
        SpecToken::Not => TokenKind::Not,
        SpecToken::Plus => TokenKind::Plus,
        SpecToken::Minus => TokenKind::Minus,
        SpecToken::Multiply => TokenKind::Multiply,
        SpecToken::Divide => TokenKind::Divide,
        SpecToken::Modulo => TokenKind::Modulo,
        SpecToken::Less => TokenKind::Less,
        SpecToken::Greater => TokenKind::Greater,
        SpecToken::AndCmp => TokenKind::AndCmp,
        SpecToken::OrCmp => TokenKind::OrCmp,
        SpecToken::QuestionMark => TokenKind::QuestionMark,
        SpecToken::FnDefinition(_) => TokenKind::FnDefinition,
        SpecToken::FnCall(_) => TokenKind::FnCall,
    }
}

impl Token {
    /// The variant of this token.
    pub fn kind(&self) -> (r: TokenKind)
        ensures
            r == kind_of(self@),
    {
        match self {
            Token::Fn => TokenKind::Fn,
            Token::StringIndex(_) => TokenKind::StringIndex,
            Token::Integer(_) => TokenKind::Integer,
            Token::Float(_) => TokenKind::Float,
            Token::Ident(_) => TokenKind::Ident,
            Token::Let => TokenKind::Let,
            Token::EnumDefinition => TokenKind::EnumDefinition,
            Token::StructDefinition => TokenKind::StructDefinition,
            Token::Return => TokenKind::Return,
            Token::LParen => TokenKind::LParen,
            Token::RParen => TokenKind::RParen,
            Token::LBrace => TokenKind::LBrace,
            Token::RBrace => TokenKind::RBrace,
            Token::LBracket => TokenKind::LBracket,
            Token::RBracket => TokenKind::RBracket,
            Token::Equals => TokenKind::Equals,
            Token::Comma => TokenKind::Comma,
            Token::Colon => TokenKind::Colon,
            Token::SemiColon => TokenKind::SemiColon,
            Token::FatArrow => TokenKind::FatArrow,
            Token::Arrow => TokenKind::Arrow,
            Token::Apostrophe => TokenKind::Apostrophe,
            Token::Namespace => TokenKind::Namespace,
            Token::Not => TokenKind::Not,
            Token::Plus => TokenKind::Plus,
            Token::Minus => TokenKind::Minus,
            Token::Multiply => TokenKind::Multiply,
            Token::Divide => TokenKind::Divide,
            Token::Modulo => TokenKind::Modulo,
            Token::Less => TokenKind::Less,
            Token::Greater => TokenKind::Greater,
            Token::AndCmp => TokenKind::AndCmp,
            Token::OrCmp => TokenKind::OrCmp,
            Token::QuestionMark => TokenKind::QuestionMark,
            Token::FnDefinition(_) => TokenKind::FnDefinition,
            Token::FnCall(_) => TokenKind::FnCall,
        }
    }

    /// Whether two tokens are equal, payload included.
    pub fn same(&self, other: &Token) -> (r: bool)
        ensures
            r == (self@ == other@),
    {
        if self.kind() != other.kind() {
            return false;
        }
        match (self, other) {
            (Token::StringIndex(a), Token::StringIndex(b)) => *a == *b,
            (Token::Integer(a), Token::Integer(b)) => *a == *b,
            (Token::Float(a), Token::Float(b)) => *a == *b,
            (Token::Ident(a), Token::Ident(b)) => *a == *b,
            (Token::FnDefinition(a), Token::FnDefinition(b)) => *a == *b,
            (Token::FnCall(a), Token::FnCall(b)) => *a == *b,
            _ => true,
        }
    }

    /// A copy of this token with the same value.
    pub fn copy(&self) -> (r: Token)
        ensures
            r@ == self@,
    {
        match self {
            Token::Fn => Token::Fn,
            Token::StringIndex(i) => Token::StringIndex(*i),
            Token::Integer(n) => Token::Integer(*n),
            Token::Float(s) => Token::Float(s.clone()),
            Token::Ident(s) => Token::Ident(s.clone()),
            Token::Let => Token::Let,
            Token::EnumDefinition => Token::EnumDefinition,
            Token::StructDefinition => Token::StructDefinition,
            Token::Return => Token::Return,
            Token::LParen => Token::LParen,
            Token::RParen => Token::RParen,
            Token::LBrace => Token::LBrace,
            Token::RBrace => Token::RBrace,
            Token::LBracket => Token::LBracket,
            Token::RBracket => Token::RBracket,
            Token::Equals => Token::Equals,
            Token::Comma => Token::Comma,
            Token::Colon => Token::Colon,
            Token::SemiColon => Token::SemiColon,
            Token::FatArrow => Token::FatArrow,
            Token::Arrow => Token::Arrow,
            Token::Apostrophe => Token::Apostrophe,
            Token::Namespace => Token::Namespace,
            Token::Not => Token::Not,
            Token::Plus => Token::Plus,
            Token::Minus => Token::Minus,
            Token::Multiply => Token::Multiply,
            Token::Divide => Token::Divide,
            Token::Modulo => Token::Modulo,
            Token::Less => Token::Less,
            Token::Greater => Token::Greater,
            Token::AndCmp => Token::AndCmp,
            Token::OrCmp => Token::OrCmp,
            Token::QuestionMark => Token::QuestionMark,
            Token::FnDefinition(s) => Token::FnDefinition(s.clone()),
            Token::FnCall(s) => Token::FnCall(s.clone()),
        }
    }
}

} // verus!

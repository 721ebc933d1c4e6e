use minilang::error::{Halt, Panic, ParseError};
use minilang::lexer::tokenize;
use minilang::monad::{EnumDeclarationMembers, Expression, ParserMonad, Type};
use minilang::token::{Token, TokenKind};

fn ident(s: &str) -> Token {
    Token::Ident(s.to_string())
}

fn text(s: &str) -> Expression {
    Expression::String(s.to_string())
}

fn lexed(source: &str) -> (Vec<Token>, Vec<String>) {
    let mut table: Vec<String> = Vec::new();
    let tokens = tokenize(source, &mut table);
    (tokens, table)
}

#[test]
fn parses_a_file_of_declarations() {
    let (tokens, table) = lexed(
        "let x = \"v\"; f(\"a\", \"b\"); enum E { A, B(T), } struct S { x: T, y: U, }",
    );
    let parser = ParserMonad { tokens: &tokens[..], string_interning_store: table };
    let (expr, rest) = parser.parse_file().unwrap();
    assert_eq!(
        expr,
        Expression::Block {
            content: Box::new(vec![
                Expression::VariableDeclaration { name: "x".to_string(), value: Box::new(text("v")) },
                Expression::SemiColon,
                Expression::FunctionCall { name: "f".to_string(), arguments: Box::new(vec![text("a"), text("b")]) },
                Expression::SemiColon,
                Expression::EnumDeclaration {
                    name: "E".to_string(),
                    members: Box::new(vec![
                        EnumDeclarationMembers::Simple("A".to_string()),
                        EnumDeclarationMembers::Variable("B".to_string(), Type("T".to_string())),
                    ]),
                },
                Expression::StructDeclaration {
                    name: "S".to_string(),
                    content: vec![
                        ("x".to_string(), Type("T".to_string())),
                        ("y".to_string(), Type("U".to_string())),
                    ],
                },
            ]),
        }
    );
    assert!(rest.tokens.is_empty());
    assert_eq!(rest.string_interning_store, vec![String::new(), String::new(), String::new()]);
}

#[test]
fn an_empty_file_is_an_empty_block() {
    let tokens: Vec<Token> = Vec::new();
    let parser = ParserMonad { tokens: &tokens[..], string_interning_store: Vec::new() };
    let (expr, _) = parser.parse_file().unwrap();
    assert_eq!(expr, Expression::Block { content: Box::new(vec![]) });
}

#[test]
fn function_parameters_pair_names_with_values() {
    let (tokens, table) = lexed("fn f(a \"x\", b \"y\") { \"z\" }");
    let parser = ParserMonad { tokens: &tokens[..], string_interning_store: table };
    let (expr, rest) = parser.parse().unwrap();
    assert_eq!(
        expr,
        Expression::FunctionDeclaration {
            name: "f".to_string(),
            arguments: vec![("a".to_string(), text("x")), ("b".to_string(), text("y"))],
            body: Box::new(Expression::Block { content: Box::new(vec![text("z")]) }),
        }
    );
    assert!(rest.tokens.is_empty());
}

#[test]
fn typed_parameters_leave_no_arguments() {
    let (tokens, table) = lexed("fn f(a: i32) {}");
    let parser = ParserMonad { tokens: &tokens[..], string_interning_store: table };
    let (expr, _) = parser.parse().unwrap();
    assert_eq!(
        expr,
        Expression::FunctionDeclaration {
            name: "f".to_string(),
            arguments: vec![],
            body: Box::new(Expression::Block { content: Box::new(vec![]) }),
        }
    );
}

#[test]
fn assignment() {
    let tokens = vec![ident("x"), Token::Equals, Token::StringIndex(0)];
    let parser = ParserMonad { tokens: &tokens[..], string_interning_store: vec!["1".to_string()] };
    let (expr, _) = parser.parse().unwrap();
    assert_eq!(expr, Expression::VariableAssignment { name: "x".to_string(), value: Box::new(text("1")) });
}

fn parse_error(tokens: &[Token], store: Vec<String>) -> ParseError {
    match (ParserMonad { tokens, string_interning_store: store }).parse() {
        Ok(_) => panic!("expected an error"),
        Err(e) => e,
    }
}

#[test]
fn statement_errors() {
    assert_eq!(parse_error(&[], vec![]), ParseError::EndedEarly);
    assert_eq!(
        parse_error(&[Token::Let, ident("x"), Token::Equals, Token::SemiColon], vec![]),
        ParseError::MissingValue
    );
    assert_eq!(
        parse_error(&[ident("x"), Token::Equals, Token::SemiColon], vec![]),
        ParseError::MissingValue
    );
    assert_eq!(
        parse_error(&[Token::Fn, ident("f"), Token::LParen, Token::StringIndex(0), Token::RParen], vec!["x".to_string()]),
        ParseError::MissingArgumentName
    );
    assert_eq!(
        parse_error(
            &[Token::EnumDefinition, ident("E"), Token::LBrace, ident("A"), Token::LParen, ident("T"), Token::RParen, ident("B")],
            vec![]
        ),
        ParseError::EnumMemberTerminator
    );
    assert_eq!(
        parse_error(&[Token::EnumDefinition, ident("E"), Token::LBrace, ident("A"), Token::SemiColon], vec![]),
        ParseError::EnumMemberStart
    );
    assert_eq!(
        parse_error(&[Token::EnumDefinition, ident("E"), Token::LBrace, ident("A")], vec![]),
        ParseError::EndedEarly
    );
    assert_eq!(
        parse_error(&[Token::StructDefinition, ident("S"), Token::LBrace, ident("x"), ident("T")], vec![]),
        ParseError::Expected { expected: TokenKind::Colon, found: ident("T") }
    );
    assert_eq!(
        parse_error(&[Token::StructDefinition, ident("S"), Token::LBrace], vec![]),
        ParseError::EndedTooEarly
    );
    assert_eq!(parse_error(&[ident("f")], vec![]), ParseError::EndedEarly);
    assert_eq!(
        parse_error(&[Token::LBrace, Token::SemiColon], vec![]),
        ParseError::EndedEarly
    );
    assert_eq!(
        parse_error(&[Token::Let, Token::Equals], vec![]),
        ParseError::Expected { expected: TokenKind::Ident, found: Token::Equals }
    );
}

fn halt(tokens: &[Token], store: Vec<String>) -> Halt {
    match (ParserMonad { tokens, string_interning_store: store }).parse_checked() {
        Ok(_) => panic!("expected a halt"),
        Err(h) => h,
    }
}

#[test]
fn unsupported_statements_stop_the_parse() {
    assert_eq!(halt(&[Token::Integer(1)], vec![]), Halt::Panic(Panic::NotImplemented(Token::Integer(1))));
    assert_eq!(halt(&[ident("a"), Token::Namespace], vec![]), Halt::Panic(Panic::Unimplemented));
    assert_eq!(halt(&[ident("a"), Token::Colon], vec![]), Halt::Panic(Panic::NotImplemented(Token::Colon)));
    assert_eq!(
        halt(&[Token::EnumDefinition, ident("E"), Token::LBrace, ident("A"), Token::LBrace], vec![]),
        Halt::Panic(Panic::Unimplemented)
    );
    assert_eq!(halt(&[Token::StringIndex(0)], vec![]), Halt::Panic(Panic::StringIndexOutOfRange(0)));
}

#[test]
fn consume_and_first() {
    let tokens = vec![Token::Fn, Token::Let];
    let mut parser = ParserMonad { tokens: &tokens[..], string_interning_store: Vec::new() };
    assert_eq!(parser.first(), Ok(&Token::Fn));
    assert_eq!(parser.consume(), Ok(&Token::Fn));
    assert_eq!(parser.tokens, &[Token::Let][..]);
    assert_eq!(parser.consume(), Ok(&Token::Let));
    assert_eq!(parser.consume(), Err(ParseError::EndedEarly));
    assert_eq!(parser.first(), Err(ParseError::EndedEarly));
}

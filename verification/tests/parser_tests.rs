use minilang::error::{Halt, Panic, ParseError};
use minilang::lexer::tokenize;
use minilang::parser::type_expressions::TypeExpr;
use minilang::parser::{Expr, NamedTypeTuple, Parser, TypeTuple, ValueTuple};
use minilang::token::{Token, TokenKind};

fn ident(s: &str) -> Token {
    Token::Ident(s.to_string())
}

fn name(s: &str) -> TypeExpr {
    TypeExpr::Name(s.to_string())
}

fn strings(v: &[&str]) -> Vec<String> {
    v.iter().map(|s| s.to_string()).collect()
}

#[test]
fn parses_a_call_and_takes_its_string() {
    let tokens = vec![ident("print"), Token::LParen, Token::StringIndex(0), Token::RParen];
    let parser = Parser { tokens: &tokens[..], string_interning_store: strings(&["hi"]) };
    let (expr, rest) = parser.parse().unwrap();
    assert_eq!(
        expr,
        Expr::FnCall {
            name: "print".to_string(),
            arguments: Box::new(ValueTuple(vec![Expr::String("hi".to_string())])),
        }
    );
    assert!(rest.tokens.is_empty());
    assert_eq!(rest.string_interning_store, strings(&[""]));
}

#[test]
fn parses_a_call_without_arguments() {
    let tokens = vec![ident("f"), Token::LParen, Token::RParen, Token::SemiColon];
    let parser = Parser { tokens: &tokens[..], string_interning_store: Vec::new() };
    let (expr, rest) = parser.parse().unwrap();
    assert_eq!(
        expr,
        Expr::FnCall { name: "f".to_string(), arguments: Box::new(ValueTuple(vec![])) }
    );
    assert_eq!(rest.tokens, &[Token::SemiColon][..]);
}

#[test]
fn a_block_leaves_its_closing_brace() {
    let tokens = vec![
        Token::Fn,
        ident("main"),
        Token::LParen,
        Token::RParen,
        Token::LBrace,
        Token::RBrace,
    ];
    let parser = Parser { tokens: &tokens[..], string_interning_store: Vec::new() };
    let (expr, rest) = parser.parse().unwrap();
    assert_eq!(
        expr,
        Expr::FnDef {
            name: "main".to_string(),
            arguments: NamedTypeTuple(vec![]),
            return_type: TypeExpr::Empty,
            body: Box::new(Expr::Block(Box::new(vec![]))),
        }
    );
    assert_eq!(rest.tokens, &[Token::RBrace][..]);
}

#[test]
fn parses_typed_parameters_and_signatures() {
    let mut table: Vec<String> = Vec::new();
    let tokens = tokenize("fn add(a: i32, b: i32[], c: u8[4][]) -> fn(i32, bool) -> i32 { }", &mut table);
    let parser = Parser { tokens: &tokens[..], string_interning_store: table };
    let (expr, rest) = parser.parse().unwrap();
    assert_eq!(
        expr,
        Expr::FnDef {
            name: "add".to_string(),
            arguments: NamedTypeTuple(vec![
                ("a".to_string(), name("i32")),
                ("b".to_string(), TypeExpr::Array(Box::new(name("i32")))),
                (
                    "c".to_string(),
                    TypeExpr::SizedArray { size: 4, item_type: Box::new(TypeExpr::Array(Box::new(name("u8")))) },
                ),
            ]),
            return_type: TypeExpr::FnSignature {
                arguments: TypeTuple(vec![name("i32"), name("bool")]),
                return_type: Box::new(name("i32")),
            },
            body: Box::new(Expr::Block(Box::new(vec![]))),
        }
    );
    assert_eq!(rest.tokens, &[Token::RBrace][..]);
}

#[test]
fn a_signature_without_arrow_has_an_empty_return_type() {
    let mut table: Vec<String> = Vec::new();
    let tokens = tokenize("fn f(g: fn()) { }", &mut table);
    let parser = Parser { tokens: &tokens[..], string_interning_store: table };
    let (expr, _) = parser.parse().unwrap();
    assert_eq!(
        expr,
        Expr::FnDef {
            name: "f".to_string(),
            arguments: NamedTypeTuple(vec![(
                "g".to_string(),
                TypeExpr::FnSignature { arguments: TypeTuple(vec![]), return_type: Box::new(TypeExpr::Empty) },
            )]),
            return_type: TypeExpr::Empty,
            body: Box::new(Expr::Block(Box::new(vec![]))),
        }
    );
}

#[test]
fn parses_the_sample_program() {
    let text = r#"
        fn main(args: String[]) -> u8 {
            println("Hello");
            fn adder(base: i32) -> fn(i32) -> i32 {
                fn a (a: i32) -> i32 {
                    add("base", "a")
                }
            }
        }
    "#;
    let mut table: Vec<String> = Vec::new();
    let tokens = tokenize(text, &mut table);
    assert_eq!(table, strings(&["Hello", "base", "a"]));
    let parser = Parser { tokens: &tokens[..], string_interning_store: table };
    let (expr, rest) = parser.parse().unwrap();
    let inner = Expr::FnDef {
        name: "a".to_string(),
        arguments: NamedTypeTuple(vec![("a".to_string(), name("i32"))]),
        return_type: name("i32"),
        body: Box::new(Expr::Block(Box::new(vec![Expr::FnCall {
            name: "add".to_string(),
            arguments: Box::new(ValueTuple(vec![
                Expr::String("base".to_string()),
                Expr::String("a".to_string()),
            ])),
        }]))),
    };
    let adder = Expr::FnDef {
        name: "adder".to_string(),
        arguments: NamedTypeTuple(vec![("base".to_string(), name("i32"))]),
        return_type: TypeExpr::FnSignature {
            arguments: TypeTuple(vec![name("i32")]),
            return_type: Box::new(name("i32")),
        },
        body: Box::new(Expr::Block(Box::new(vec![inner]))),
    };
    assert_eq!(
        expr,
        Expr::FnDef {
            name: "main".to_string(),
            arguments: NamedTypeTuple(vec![("args".to_string(), TypeExpr::Array(Box::new(name("String"))))]),
            return_type: name("u8"),
            body: Box::new(Expr::Block(Box::new(vec![
                Expr::FnCall {
                    name: "println".to_string(),
                    arguments: Box::new(ValueTuple(vec![Expr::String("Hello".to_string())])),
                },
                Expr::Execute,
                adder,
            ]))),
        }
    );
    assert_eq!(rest.tokens, &[Token::RBrace, Token::RBrace, Token::RBrace][..]);
    assert_eq!(rest.string_interning_store, strings(&["", "", ""]));
}

#[test]
fn a_string_used_twice_is_empty_the_second_time() {
    let tokens = vec![ident("f"), Token::LParen, Token::StringIndex(0), Token::Comma, Token::StringIndex(0), Token::RParen];
    let parser = Parser { tokens: &tokens[..], string_interning_store: strings(&["s"]) };
    let (expr, _) = parser.parse().unwrap();
    assert_eq!(
        expr,
        Expr::FnCall {
            name: "f".to_string(),
            arguments: Box::new(ValueTuple(vec![Expr::String("s".to_string()), Expr::String(String::new())])),
        }
    );
}

#[test]
fn semicolon_is_execute() {
    let tokens = vec![Token::SemiColon];
    let parser = Parser { tokens: &tokens[..], string_interning_store: Vec::new() };
    let (expr, rest) = parser.parse().unwrap();
    assert_eq!(expr, Expr::Execute);
    assert!(rest.tokens.is_empty());
}

fn parse_error(tokens: &[Token], store: Vec<String>) -> ParseError {
    match (Parser { tokens, string_interning_store: store }).parse() {
        Ok(_) => panic!("expected an error"),
        Err(e) => e,
    }
}

#[test]
fn errors() {
    assert_eq!(parse_error(&[], vec![]), ParseError::EndedTooEarly);
    assert_eq!(parse_error(&[ident("f")], vec![]), ParseError::EndedTooEarly);
    assert_eq!(
        parse_error(&[Token::Fn, Token::LParen], vec![]),
        ParseError::Expected { expected: TokenKind::Ident, found: Token::LParen }
    );
    assert_eq!(
        parse_error(&[Token::Fn, ident("f"), ident("x")], vec![]),
        ParseError::ExpectedOpening { expected: Token::LParen, found: ident("x") }
    );
    assert_eq!(
        parse_error(&[Token::Fn, ident("f"), Token::LParen, ident("a"), ident("i32")], vec![]),
        ParseError::Expected { expected: TokenKind::Colon, found: ident("i32") }
    );
    assert_eq!(
        parse_error(
            &[ident("f"), Token::LParen, Token::StringIndex(0), Token::StringIndex(1), Token::RParen],
            strings(&["a", "b"])
        ),
        ParseError::ExpectedClosingOrComma { expected: Token::RParen, found: Token::StringIndex(1) }
    );
    assert_eq!(
        parse_error(&[Token::Fn, ident("f"), Token::LParen, Token::RParen], vec![]),
        ParseError::EndedTooEarly
    );
    assert_eq!(
        parse_error(&[Token::Fn, ident("f"), Token::LParen, Token::RParen, Token::SemiColon], vec![]),
        ParseError::Expected { expected: TokenKind::LBrace, found: Token::SemiColon }
    );
    assert_eq!(
        parse_error(&[Token::LBrace, Token::SemiColon], vec![]),
        ParseError::EndedTooEarly
    );
}

fn halt(tokens: &[Token], store: Vec<String>) -> Halt {
    match (Parser { tokens, string_interning_store: store }).parse_checked() {
        Ok(_) => panic!("expected a halt"),
        Err(h) => h,
    }
}

#[test]
fn unsupported_tokens_stop_the_parse() {
    assert_eq!(halt(&[Token::LParen], vec![]), Halt::Panic(Panic::NotImplemented(Token::LParen)));
    assert_eq!(halt(&[ident("f"), Token::Comma], vec![]), Halt::Panic(Panic::Unimplemented));
    assert_eq!(
        halt(&[ident("f"), Token::LParen, Token::Integer(1), Token::RParen], vec![]),
        Halt::Panic(Panic::NotImplemented(Token::Integer(1)))
    );
    assert_eq!(halt(&[Token::StringIndex(5)], vec![]), Halt::Panic(Panic::StringIndexOutOfRange(5)));
    assert_eq!(
        halt(&[Token::Fn, ident("f"), Token::LParen, ident("a"), Token::Colon, Token::Integer(3), Token::RParen], vec![]),
        Halt::Panic(Panic::NotImplemented(Token::Integer(3)))
    );
    assert_eq!(halt(&[], vec![]), Halt::Error(ParseError::EndedTooEarly));
}

#[test]
fn a_string_literal_reads_back_as_its_text() {
    let mut table: Vec<String> = vec!["other".to_string()];
    let tokens = tokenize("\"hello world\"", &mut table);
    assert_eq!(tokens, vec![Token::StringIndex(1)]);
    assert_eq!(table[1], "hello world");
    let parser = Parser { tokens: &tokens[..], string_interning_store: table };
    let (expr, rest) = parser.parse().unwrap();
    assert_eq!(expr, Expr::String("hello world".to_string()));
    assert!(rest.tokens.is_empty());
    assert_eq!(rest.string_interning_store, strings(&["other", ""]));
}

#[test]
fn parses_a_typed_list() {
    let tokens = vec![Token::LParen, ident("i32"), Token::Comma, ident("u8"), Token::RParen, Token::SemiColon];
    let p = Parser { tokens: &tokens[..], string_interning_store: vec![] };
    let (types, rest) = p.parse_typed_delimitered((Token::LParen, Token::RParen)).unwrap();
    assert_eq!(types, TypeTuple(vec![name("i32"), name("u8")]));
    assert_eq!(rest.tokens, &[Token::SemiColon][..]);
}

#[test]
fn a_typed_list_reports_a_missing_opening() {
    let tokens = vec![ident("i32")];
    let p = Parser { tokens: &tokens[..], string_interning_store: vec![] };
    let r = p.parse_typed_delimitered((Token::LParen, Token::RParen));
    assert_eq!(r.err(), Some(ParseError::ExpectedOpening { expected: Token::LParen, found: ident("i32") }));
}

#[test]
fn a_typed_list_stops_on_a_value() {
    let tokens = vec![Token::LParen, Token::Integer(1), Token::RParen];
    let p = Parser { tokens: &tokens[..], string_interning_store: vec![] };
    let r = p.parse_typed_delimitered_checked((Token::LParen, Token::RParen));
    assert_eq!(r.err(), Some(Halt::Panic(Panic::NotImplemented(Token::Integer(1)))));
}

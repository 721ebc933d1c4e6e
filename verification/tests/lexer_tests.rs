use minilang::lexer::{intern, is_ident_char, tokenize, try_tokenize};
use minilang::token::{Token, TokenKind};

fn ident(s: &str) -> Token {
    Token::Ident(s.to_string())
}

fn lex(text: &str) -> Vec<Token> {
    let mut table: Vec<String> = Vec::new();
    tokenize(text, &mut table)
}

#[test]
fn lexes_function_header() {
    let mut table: Vec<String> = Vec::new();
    let tokens = tokenize("fn main(args: String[]) -> u8 { println(\"Hello\"); }", &mut table);
    assert_eq!(
        tokens,
        vec![
            Token::Fn,
            ident("main"),
            Token::LParen,
            ident("args"),
            Token::Colon,
            ident("String"),
            Token::LBracket,
            Token::RBracket,
            Token::RParen,
            Token::Arrow,
            ident("u8"),
            Token::LBrace,
            ident("println"),
            Token::LParen,
            Token::StringIndex(0),
            Token::RParen,
            Token::SemiColon,
            Token::RBrace,
        ]
    );
    assert_eq!(table, vec!["Hello".to_string()]);
}

#[test]
fn keyword_prefixes_split_identifiers() {
    assert_eq!(lex("fnord"), vec![Token::Fn, ident("ord")]);
    assert_eq!(lex("function"), vec![ident("function")]);
    assert_eq!(lex("fnx()"), vec![Token::Fn, ident("x"), Token::LParen, Token::RParen]);
    assert_eq!(lex("structure"), vec![Token::StructDefinition, ident("ure")]);
    assert_eq!(lex("enum Color"), vec![Token::EnumDefinition, ident("Color")]);
    assert_eq!(lex("struct Point"), vec![Token::StructDefinition, ident("Point")]);
}

#[test]
fn fn_without_name_is_a_lone_fn() {
    assert_eq!(lex("fn(i32)"), vec![Token::Fn, Token::LParen, ident("i32"), Token::RParen]);
}

#[test]
fn let_needs_a_name_and_equals() {
    assert_eq!(
        lex("let x = 5;"),
        vec![Token::Let, ident("x"), Token::Equals, Token::Integer(5), Token::SemiColon]
    );
    assert_eq!(lex("let"), vec![ident("let")]);
    assert_eq!(lex("let x"), vec![ident("let"), ident("x")]);
}

#[test]
fn return_is_an_identifier() {
    assert_eq!(lex("return x"), vec![ident("return"), ident("x")]);
}

#[test]
fn numbers() {
    assert_eq!(lex("3.14"), vec![Token::Float("3.14".to_string())]);
    assert_eq!(lex("42"), vec![Token::Integer(42)]);
    assert_eq!(lex("007"), vec![Token::Integer(7)]);
    assert_eq!(
        lex("170141183460469231731687303715884105727"),
        vec![Token::Integer(i128::MAX)]
    );
    assert_eq!(
        lex("170141183460469231731687303715884105728"),
        vec![ident("170141183460469231731687303715884105728")]
    );
    assert_eq!(lex("12abc"), vec![Token::Integer(12), ident("abc")]);
}

#[test]
fn a_dot_without_digits_is_not_a_token() {
    let mut table: Vec<String> = Vec::new();
    assert_eq!(try_tokenize("3.", &mut table), Err(1));
}

#[test]
fn punctuation_and_operators() {
    assert_eq!(
        lex("a::b"),
        vec![ident("a"), Token::Colon, Token::Colon, ident("b")]
    );
    assert_eq!(lex("x => y"), vec![ident("x"), Token::FatArrow, ident("y")]);
    assert_eq!(lex("a->b"), vec![ident("a"), Token::Arrow, ident("b")]);
    assert_eq!(lex("a - b"), vec![ident("a"), Token::Minus, ident("b")]);
    assert_eq!(
        lex("! && || + * / % < > ? , ; '"),
        vec![
            Token::Not,
            Token::AndCmp,
            Token::OrCmp,
            Token::Plus,
            Token::Multiply,
            Token::Divide,
            Token::Modulo,
            Token::Less,
            Token::Greater,
            Token::QuestionMark,
            Token::Comma,
            Token::SemiColon,
            Token::Apostrophe,
        ]
    );
    assert_eq!(
        lex("()[]{}"),
        vec![
            Token::LParen,
            Token::RParen,
            Token::LBracket,
            Token::RBracket,
            Token::LBrace,
            Token::RBrace,
        ]
    );
}

#[test]
fn unlexable_text_is_reported() {
    let mut table: Vec<String> = Vec::new();
    assert_eq!(try_tokenize("a = b", &mut table), Err(2));
    assert_eq!(try_tokenize("a & b", &mut table), Err(2));
    assert_eq!(try_tokenize("x.y", &mut table), Err(1));
    assert_eq!(try_tokenize("\"open", &mut table), Err(0));
}

#[test]
fn failed_lexing_keeps_strings_interned_before_the_failure() {
    let mut table: Vec<String> = Vec::new();
    assert_eq!(try_tokenize("\"a\" = ", &mut table), Err(4));
    assert_eq!(table, vec!["a".to_string()]);
}

#[test]
fn blanks_are_skipped() {
    assert_eq!(lex(" \t\r\n a \n"), vec![ident("a")]);
    assert_eq!(lex(""), Vec::<Token>::new());
    assert_eq!(lex("   "), Vec::<Token>::new());
}

#[test]
fn identifiers_may_hold_unicode_letters_and_underscores() {
    assert_eq!(lex("héllo_wörld"), vec![ident("héllo_wörld")]);
    assert!(is_ident_char('_'));
    assert!(is_ident_char('é'));
    assert!(is_ident_char('7'));
    assert!(!is_ident_char('-'));
}

#[test]
fn string_literals_are_interned() {
    let mut table: Vec<String> = Vec::new();
    let tokens = tokenize("\"a\" \"b\" \"a\" \"\"", &mut table);
    assert_eq!(
        tokens,
        vec![
            Token::StringIndex(0),
            Token::StringIndex(1),
            Token::StringIndex(0),
            Token::StringIndex(2),
        ]
    );
    assert_eq!(table, vec!["a".to_string(), "b".to_string(), String::new()]);
}

#[test]
fn the_table_carries_over_between_calls() {
    let mut table: Vec<String> = vec!["x".to_string()];
    let tokens = tokenize("\"y\" \"x\"", &mut table);
    assert_eq!(tokens, vec![Token::StringIndex(1), Token::StringIndex(0)]);
    assert_eq!(table, vec!["x".to_string(), "y".to_string()]);
}

#[test]
fn interning_reuses_indices() {
    let mut table: Vec<String> = Vec::new();
    assert_eq!(intern(&mut table, "a"), 0);
    assert_eq!(intern(&mut table, "b"), 1);
    assert_eq!(intern(&mut table, "a"), 0);
    assert_eq!(table, vec!["a".to_string(), "b".to_string()]);
}

#[test]
fn interning_finds_the_first_occurrence() {
    let mut table: Vec<String> = vec!["a".to_string(), "b".to_string(), "b".to_string()];
    assert_eq!(intern(&mut table, "b"), 1);
    assert_eq!(table.len(), 3);
}

#[test]
fn token_kinds_and_equality() {
    assert_eq!(ident("x").kind(), TokenKind::Ident);
    assert!(ident("x").same(&ident("x")));
    assert!(!ident("x").same(&ident("y")));
    assert!(!Token::Integer(1).same(&Token::Integer(2)));
    assert!(Token::Comma.same(&Token::Comma));
    assert!(!Token::Comma.same(&Token::Colon));
    assert_eq!(Token::Float("1.5".to_string()).copy(), Token::Float("1.5".to_string()));
}

#[test]
fn blanks_around_and_between_tokens_do_not_matter() {
    let mut t1: Vec<String> = vec![];
    let mut t2: Vec<String> = vec![];
    let mut t3: Vec<String> = vec![];
    let a = tokenize("let x = add(\"a b\", 1);", &mut t1);
    let b = tokenize(" \n\tlet x = add(\"a b\", 1);\r\n ", &mut t2);
    let c = tokenize("let\tx   =\nadd(\"a b\",\t1) ;", &mut t3);
    assert_eq!(a, b);
    assert_eq!(a, c);
    assert_eq!(t1, t2);
    assert_eq!(t1, t3);
}

#[test]
fn blanks_are_not_identifier_characters() {
    assert!(minilang::lexer::blanks_are_not_identifier_chars());
}

use minilang::simple_tokenizer::{IntermediateToken, Tokenizer};
use minilang::token::Token;

fn text(s: &str) -> IntermediateToken {
    IntermediateToken::String(s.to_string())
}

fn tok(t: Token) -> IntermediateToken {
    IntermediateToken::Token(t)
}

#[test]
fn as_str_and_as_token() {
    assert_eq!(text("a").as_str(), Some(&"a".to_string()));
    assert_eq!(text("a").as_token(), None);
    assert_eq!(tok(Token::Fn).as_token(), Some(&Token::Fn));
    assert_eq!(tok(Token::Fn).as_str(), None);
}

#[test]
fn split_up_cuts_words_and_symbols() {
    let t = Tokenizer {
        tokens: vec![text("fn main(a, b) {\n\tx; }"), tok(Token::Let)],
        string_interning_store: vec!["kept".to_string()],
        complete: true,
    };
    let r = t.split_up();
    assert_eq!(
        r.tokens,
        vec![
            tok(Token::Fn),
            text("main"),
            tok(Token::LParen),
            text("a"),
            tok(Token::Comma),
            text("b"),
            tok(Token::RParen),
            tok(Token::LBrace),
            text("x"),
            tok(Token::SemiColon),
            tok(Token::RBrace),
            tok(Token::Let),
        ]
    );
    assert_eq!(r.string_interning_store, vec!["kept".to_string()]);
    assert!(r.complete);
}

#[test]
fn split_up_keeps_other_symbols_as_text() {
    let t = Tokenizer { tokens: vec![text("a-b héllo fnx")], string_interning_store: vec![], complete: false };
    let r = t.split_up();
    assert_eq!(
        r.tokens,
        vec![text("a"), text("-"), text("b"), text("h"), text("é"), text("llo"), text("fnx")]
    );
}

#[test]
fn string_interning_cuts_out_quoted_text() {
    let t = Tokenizer {
        tokens: vec![text("say \"hi\" and \"bye\""), tok(Token::Fn), text("x\"y")],
        string_interning_store: vec!["old".to_string()],
        complete: true,
    };
    let r = t.string_interning();
    assert_eq!(
        r.tokens,
        vec![
            text("say "),
            tok(Token::StringIndex(0)),
            text(" and "),
            tok(Token::StringIndex(1)),
            text(""),
            text("x"),
            tok(Token::StringIndex(2)),
        ]
    );
    assert_eq!(r.string_interning_store, vec!["hi".to_string(), "bye".to_string(), "y".to_string()]);
    assert!(r.complete);
}

#[test]
fn white_space_is_that_of_std() {
    for code in 0u32..=0x10FFFF {
        if let Some(c) = char::from_u32(code) {
            assert_eq!(minilang::simple_tokenizer::is_whitespace(c), c.is_whitespace(), "{code:#x}");
        }
    }
}

fn piece_text(p: &IntermediateToken) -> String {
    match p {
        IntermediateToken::String(s) => s.clone(),
        IntermediateToken::Token(Token::Fn) => "fn".to_string(),
        IntermediateToken::Token(Token::LParen) => "(".to_string(),
        IntermediateToken::Token(Token::RParen) => ")".to_string(),
        IntermediateToken::Token(Token::LBrace) => "{".to_string(),
        IntermediateToken::Token(Token::RBrace) => "}".to_string(),
        IntermediateToken::Token(Token::Comma) => ",".to_string(),
        IntermediateToken::Token(Token::SemiColon) => ";".to_string(),
        IntermediateToken::Token(_) => String::new(),
    }
}

#[test]
fn split_up_keeps_the_text_without_white_space() {
    let s = "fn main( a,b ) {\n\tlet\u{a0}x = y + 1; }";
    let t = Tokenizer { tokens: vec![text(s)], string_interning_store: vec![], complete: false };
    let r = t.split_up();
    let joined: String = r.tokens.iter().map(piece_text).collect();
    let expected: String = s.chars().filter(|c| !c.is_whitespace()).collect();
    assert_eq!(joined, expected);
}

#[test]
fn string_interning_numbers_in_order_and_reads_back() {
    let s = "print(\"a b\", \"\", x) \"tail";
    let t = Tokenizer { tokens: vec![text(s)], string_interning_store: vec![], complete: false };
    let r = t.string_interning();
    let indices: Vec<usize> = r
        .tokens
        .iter()
        .filter_map(|p| match p {
            IntermediateToken::Token(Token::StringIndex(i)) => Some(*i),
            _ => None,
        })
        .collect();
    assert_eq!(indices, vec![0, 1, 2]);
    assert_eq!(r.string_interning_store, vec!["a b".to_string(), "".to_string(), "tail".to_string()]);
    let parts: Vec<String> = r
        .tokens
        .iter()
        .map(|p| match p {
            IntermediateToken::String(x) => x.clone(),
            IntermediateToken::Token(Token::StringIndex(i)) => r.string_interning_store[*i].clone(),
            IntermediateToken::Token(_) => String::new(),
        })
        .collect();
    assert_eq!(parts.join("\""), s);
}

#[test]
fn funcion_determination_tells_definitions_from_calls() {
    let t = Tokenizer {
        tokens: vec![
            tok(Token::Fn),
            text("main"),
            tok(Token::LParen),
            tok(Token::RParen),
            tok(Token::LBrace),
            text("print"),
            tok(Token::LParen),
            text("x"),
            tok(Token::RParen),
            tok(Token::RBrace),
        ],
        string_interning_store: vec!["kept".to_string()],
        complete: true,
    };
    let r = t.funcion_determination();
    assert_eq!(
        r.tokens,
        vec![
            tok(Token::Fn),
            tok(Token::FnDefinition("main".to_string())),
            tok(Token::LParen),
            tok(Token::RParen),
            tok(Token::LBrace),
            tok(Token::FnCall("print".to_string())),
            tok(Token::LParen),
            text("x"),
            tok(Token::RParen),
            tok(Token::RBrace),
        ]
    );
    assert_eq!(r.string_interning_store, vec!["kept".to_string()]);
    assert!(r.complete);
}

#[test]
fn a_first_name_followed_by_a_parenthesis_is_a_call() {
    let t = Tokenizer {
        tokens: vec![text("print"), tok(Token::LParen), tok(Token::RParen)],
        string_interning_store: vec![],
        complete: false,
    };
    let r = t.funcion_determination();
    assert_eq!(r.tokens, vec![tok(Token::FnCall("print".to_string())), tok(Token::LParen), tok(Token::RParen)]);
}

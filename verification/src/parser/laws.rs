//! What every parsing step keeps: it leaves a suffix of its tokens and a store
//! of the same length, and it does not run out of the store on string tokens
//! that refer into it.
use crate::error::{SpecHalt, SpecPanic};
use crate::lexer::{
    blank_end, digit_end, intern_finds_or_appends, intern_spec, kw_enum, kw_fn, kw_let, kw_struct, lex, lex_from,
    lexing_extends_table, quote_at_or_after, strings_below, text_at,
};
use crate::parser::expressions::{
    block_items_spec, block_spec, call_spec, fn_def_spec, ident_spec, return_type_spec, semicolon_spec,
    string_spec,
};
use crate::parser::structure::{
    closing_spec, delimitered_spec, named_delimitered_spec, named_spec, typed_delimitered_spec, types_spec,
    values_spec,
};
use crate::parser::type_expressions::{array_suffix_spec, signature_spec, type_expr_spec, type_ident_spec, SpecTypeExpr};
use crate::parser::{
    parse_spec, pattern_ident_spec, pattern_spec, pattern_string_spec, skip, SpecExpr, SpecParser, Step,
};
use crate::token::{SpecToken, TokenKind};
use vstd::prelude::*;

verus! {

/// `q` is what is left of `p`: a suffix of its tokens, and a store of the same length.
pub open spec fn keeps(p: SpecParser, q: SpecParser) -> bool {
    &&& q.tokens.len() <= p.tokens.len()
    &&& q.tokens == p.tokens.skip(p.tokens.len() - q.tokens.len())
    &&& q.store.len() == p.store.len()
}

/// Every string token of `p` refers into its store.
pub open spec fn strings_in_store(p: SpecParser) -> bool {
    strings_below(p.tokens, p.store.len() as int)
}

/// A step that does not stop on a string index outside the store.
pub open spec fn no_index_panic<T>(r: Step<T>) -> bool {
    !(r matches Err(SpecHalt::Panic(SpecPanic::StringIndexOutOfRange(_))))
}

/// A step from `p` that keeps `p`'s tokens and store, and that does not run out
/// of the store when `p`'s string tokens refer into it.
pub open spec fn sound<T>(p: SpecParser, r: Step<T>) -> bool {
    &&& r matches Ok((_, q)) ==> keeps(p, q)
    &&& strings_in_store(p) ==> no_index_panic(r)
}

pub(crate) proof fn lemma_keeps_refl(p: SpecParser)
    ensures
        keeps(p, p),
{
    assert(p.tokens.skip(0) =~= p.tokens);
}

pub(crate) proof fn lemma_keeps_skip(p: SpecParser, n: int)
    requires
        0 <= n <= p.tokens.len(),
    ensures
        keeps(p, skip(p, n)),
{
    assert(p.tokens.skip(n) =~= p.tokens.skip(p.tokens.len() - (p.tokens.len() - n)));
}

pub(crate) proof fn lemma_keeps_trans(p: SpecParser, q: SpecParser, r: SpecParser)
    requires
        keeps(p, q),
        keeps(q, r),
    ensures
        keeps(p, r),
{
    assert(r.tokens =~= p.tokens.skip(p.tokens.len() - r.tokens.len()));
}

pub(crate) proof fn lemma_keeps_strings(p: SpecParser, q: SpecParser)
    requires
        keeps(p, q),
        strings_in_store(p),
    ensures
        strings_in_store(q),
{
    let off = p.tokens.len() - q.tokens.len();
    assert forall|j: int| 0 <= j < q.tokens.len() implies (#[trigger] q.tokens[j] matches SpecToken::StringIndex(k) ==> k < q.store.len()) by {
        assert(q.tokens[j] == p.tokens[j + off]);
    }
}

/// A step after a step: the second is sound from where the first left off.
pub(crate) proof fn lemma_chain<T>(p: SpecParser, q: SpecParser, r: Step<T>)
    requires
        keeps(p, q),
        sound(q, r),
    ensures
        sound(p, r),
{
    if let Ok((_, s)) = r {
        lemma_keeps_trans(p, q, s);
    }
    if strings_in_store(p) {
        lemma_keeps_strings(p, q);
    }
}

proof fn lemma_pattern(p: SpecParser, kind: TokenKind)
    ensures
        pattern_spec(p, kind) matches Ok(q) ==> keeps(p, q) && q.tokens.len() + 1 == p.tokens.len(),
{
    if p.tokens.len() > 0 {
        lemma_keeps_skip(p, 1);
    }
}

proof fn lemma_pattern_ident(p: SpecParser)
    ensures
        pattern_ident_spec(p) matches Ok((_, q)) ==> keeps(p, q) && q.tokens.len() + 1 == p.tokens.len(),
{
    if p.tokens.len() > 0 {
        lemma_keeps_skip(p, 1);
    }
}

proof fn lemma_array_suffix(p: SpecParser, name: Seq<char>)
    ensures
        keeps(p, array_suffix_spec(p, name).1),
    decreases p.tokens.len(),
{
    if p.tokens.len() >= 2 && p.tokens[0] is LBracket && p.tokens[1] is RBracket {
        lemma_keeps_skip(p, 2);
        lemma_array_suffix(skip(p, 2), name);
        lemma_keeps_trans(p, skip(p, 2), array_suffix_spec(skip(p, 2), name).1);
    } else if p.tokens.len() >= 3 && p.tokens[0] is LBracket && p.tokens[1] is Integer && p.tokens[2] is RBracket {
        lemma_keeps_skip(p, 3);
        lemma_array_suffix(skip(p, 3), name);
        lemma_keeps_trans(p, skip(p, 3), array_suffix_spec(skip(p, 3), name).1);
    } else {
        lemma_keeps_refl(p);
    }
}

proof fn lemma_type_expr(p: SpecParser)
    ensures
        sound(p, type_expr_spec(p)),
    decreases p.tokens.len(), 2nat,
{
    if p.tokens.len() > 0 {
        match p.tokens[0] {
            SpecToken::Ident(_) => lemma_type_ident(p),
            SpecToken::Fn => lemma_signature(p),
            _ => {},
        }
    }
}

proof fn lemma_type_ident(p: SpecParser)
    ensures
        sound(p, type_ident_spec(p)),
    decreases p.tokens.len(), 1nat,
{
    lemma_pattern_ident(p);
    if let Ok((name, q)) = pattern_ident_spec(p) {
        lemma_array_suffix(q, name);
        lemma_keeps_trans(p, q, array_suffix_spec(q, name).1);
    }
}

proof fn lemma_signature(p: SpecParser)
    ensures
        sound(p, signature_spec(p)),
    decreases p.tokens.len(), 1nat,
{
    lemma_pattern(p, TokenKind::Fn);
    if let Ok(p1) = pattern_spec(p, TokenKind::Fn) {
        lemma_typed_delimitered(p1, SpecToken::LParen, SpecToken::RParen);
        if let Ok((arguments, p2)) = typed_delimitered_spec(p1, SpecToken::LParen, SpecToken::RParen) {
            lemma_keeps_trans(p, p1, p2);
            if p2.tokens.len() < p.tokens.len() && p2.tokens.len() > 0 {
                if p2.tokens[0] is Arrow {
                    lemma_keeps_skip(p2, 1);
                    lemma_keeps_trans(p, p2, skip(p2, 1));
                    lemma_type_expr(skip(p2, 1));
                    lemma_chain(p, skip(p2, 1), type_expr_spec(skip(p2, 1)));
                }
            }
        }
    }
}

proof fn lemma_typed_delimitered(p: SpecParser, open: SpecToken, close: SpecToken)
    ensures
        sound(p, typed_delimitered_spec(p, open, close)),
    decreases p.tokens.len(), 1nat,
{
    if p.tokens.len() > 0 && p.tokens[0] == open {
        let q = skip(p, 1);
        lemma_keeps_skip(p, 1);
        if q.tokens.len() > 0 {
            if q.tokens[0] is RParen {
                lemma_keeps_skip(q, 1);
                lemma_keeps_trans(p, q, skip(q, 1));
            } else {
                lemma_types(q, Seq::empty(), close);
                lemma_chain(p, q, types_spec(q, Seq::empty(), close));
            }
        }
    }
}

proof fn lemma_closing_then(p: SpecParser, q: SpecParser, close: SpecToken)
    requires
        keeps(p, q),
        closing_spec(q, close) is Ok,
    ensures
        q.tokens.len() > 0,
        keeps(p, skip(q, 1)),
{
    lemma_keeps_skip(q, 1);
    lemma_keeps_trans(p, q, skip(q, 1));
}

proof fn lemma_types(p: SpecParser, acc: Seq<SpecTypeExpr>, close: SpecToken)
    ensures
        sound(p, types_spec(p, acc, close)),
    decreases p.tokens.len(), 3nat,
{
    lemma_type_expr(p);
    if let Ok((t, q)) = type_expr_spec(p) {
        if q.tokens.len() < p.tokens.len() {
            if closing_spec(q, close) is Ok {
                lemma_closing_then(p, q, close);
                if closing_spec(q, close) == Ok::<bool, SpecHalt>(false) {
                    lemma_types(skip(q, 1), acc.push(t), close);
                    lemma_chain(p, skip(q, 1), types_spec(skip(q, 1), acc.push(t), close));
                }
            }
        }
    }
}

proof fn lemma_named(p: SpecParser, acc: Seq<(Seq<char>, SpecTypeExpr)>, close: SpecToken)
    ensures
        sound(p, named_spec(p, acc, close)),
    decreases p.tokens.len(),
{
    lemma_pattern_ident(p);
    if let Ok((name, p1)) = pattern_ident_spec(p) {
        lemma_pattern(p1, TokenKind::Colon);
        if let Ok(p2) = pattern_spec(p1, TokenKind::Colon) {
            lemma_keeps_trans(p, p1, p2);
            lemma_type_expr(p2);
            lemma_chain(p, p2, type_expr_spec(p2));
            if let Ok((t, q)) = type_expr_spec(p2) {
                if q.tokens.len() < p.tokens.len() {
                    if closing_spec(q, close) is Ok {
                        lemma_closing_then(p, q, close);
                        if closing_spec(q, close) == Ok::<bool, SpecHalt>(false) {
                            lemma_named(skip(q, 1), acc.push((name, t)), close);
                            lemma_chain(p, skip(q, 1), named_spec(skip(q, 1), acc.push((name, t)), close));
                        }
                    }
                }
            }
        }
    }
}

proof fn lemma_named_delimitered(p: SpecParser, open: SpecToken, close: SpecToken)
    ensures
        sound(p, named_delimitered_spec(p, open, close)),
{
    if p.tokens.len() > 0 && p.tokens[0] == open {
        let q = skip(p, 1);
        lemma_keeps_skip(p, 1);
        if q.tokens.len() > 0 {
            if q.tokens[0] is RParen {
                lemma_keeps_skip(q, 1);
                lemma_keeps_trans(p, q, skip(q, 1));
            } else {
                lemma_named(q, Seq::empty(), close);
                lemma_chain(p, q, named_spec(q, Seq::empty(), close));
            }
        }
    }
}

proof fn lemma_return_type(p: SpecParser)
    ensures
        sound(p, return_type_spec(p)),
{
    if p.tokens.len() > 0 {
        if p.tokens[0] is Arrow {
            lemma_keeps_skip(p, 1);
            lemma_type_expr(skip(p, 1));
            lemma_chain(p, skip(p, 1), type_expr_spec(skip(p, 1)));
        } else {
            lemma_keeps_refl(p);
        }
    }
}

proof fn lemma_string(p: SpecParser)
    ensures
        sound(p, string_spec(p)),
{
    if p.tokens.len() > 0 {
        lemma_keeps_skip(p, 1);
        if strings_in_store(p) {
            assert(p.tokens[0] matches SpecToken::StringIndex(k) ==> k < p.store.len());
        }
    }
}

proof fn lemma_semicolon(p: SpecParser)
    ensures
        sound(p, semicolon_spec(p)),
{
    lemma_pattern(p, TokenKind::SemiColon);
}

/// Parsing one expression is sound.
pub proof fn lemma_parse(p: SpecParser)
    ensures
        sound(p, parse_spec(p)),
    decreases p.tokens.len(), 5nat,
{
    if p.tokens.len() > 0 {
        match p.tokens[0] {
            SpecToken::Fn => lemma_fn_def(p),
            SpecToken::LBrace => lemma_block(p),
            SpecToken::Ident(_) => lemma_ident(p),
            SpecToken::StringIndex(_) => lemma_string(p),
            SpecToken::SemiColon => lemma_semicolon(p),
            _ => {},
        }
    }
}

proof fn lemma_fn_def(p: SpecParser)
    ensures
        sound(p, fn_def_spec(p)),
    decreases p.tokens.len(), 4nat,
{
    lemma_pattern(p, TokenKind::Fn);
    if let Ok(p1) = pattern_spec(p, TokenKind::Fn) {
        lemma_pattern_ident(p1);
        if let Ok((name, p2)) = pattern_ident_spec(p1) {
            lemma_keeps_trans(p, p1, p2);
            lemma_named_delimitered(p2, SpecToken::LParen, SpecToken::RParen);
            lemma_chain(p, p2, named_delimitered_spec(p2, SpecToken::LParen, SpecToken::RParen));
            if let Ok((arguments, p3)) = named_delimitered_spec(p2, SpecToken::LParen, SpecToken::RParen) {
                lemma_return_type(p3);
                lemma_chain(p, p3, return_type_spec(p3));
                if let Ok((return_type, p4)) = return_type_spec(p3) {
                    if p4.tokens.len() < p.tokens.len() {
                        lemma_block(p4);
                        lemma_chain(p, p4, block_spec(p4));
                    }
                }
            }
        }
    }
}

proof fn lemma_block(p: SpecParser)
    ensures
        sound(p, block_spec(p)),
    decreases p.tokens.len(), 4nat,
{
    lemma_pattern(p, TokenKind::LBrace);
    if let Ok(q) = pattern_spec(p, TokenKind::LBrace) {
        lemma_block_items(q, Seq::empty());
        lemma_chain(p, q, block_items_spec(q, Seq::empty()));
    }
}

proof fn lemma_block_items(p: SpecParser, acc: Seq<SpecExpr>)
    ensures
        sound(p, block_items_spec(p, acc)),
    decreases p.tokens.len(), 6nat,
{
    if p.tokens.len() > 0 {
        if p.tokens[0] is RBrace {
            lemma_keeps_refl(p);
        } else {
            lemma_parse(p);
            if let Ok((e, q)) = parse_spec(p) {
                if q.tokens.len() < p.tokens.len() {
                    lemma_block_items(q, acc.push(e));
                    lemma_chain(p, q, block_items_spec(q, acc.push(e)));
                }
            }
        }
    }
}

proof fn lemma_ident(p: SpecParser)
    ensures
        sound(p, ident_spec(p)),
    decreases p.tokens.len(), 4nat,
{
    if p.tokens.len() >= 2 && p.tokens[1] is LParen {
        lemma_call(p);
    }
}

proof fn lemma_call(p: SpecParser)
    ensures
        sound(p, call_spec(p)),
    decreases p.tokens.len(), 3nat,
{
    lemma_pattern_ident(p);
    if let Ok((name, q)) = pattern_ident_spec(p) {
        lemma_delimitered(q, SpecToken::LParen, SpecToken::RParen);
        lemma_chain(p, q, delimitered_spec(q, SpecToken::LParen, SpecToken::RParen));
    }
}

proof fn lemma_delimitered(p: SpecParser, open: SpecToken, close: SpecToken)
    ensures
        sound(p, delimitered_spec(p, open, close)),
    decreases p.tokens.len(), 3nat,
{
    if p.tokens.len() > 0 && p.tokens[0] == open {
        let q = skip(p, 1);
        lemma_keeps_skip(p, 1);
        if q.tokens.len() > 0 {
            if q.tokens[0] is RParen {
                lemma_keeps_skip(q, 1);
                lemma_keeps_trans(p, q, skip(q, 1));
            } else {
                lemma_values(q, Seq::empty(), close);
                lemma_chain(p, q, values_spec(q, Seq::empty(), close));
            }
        }
    }
}

proof fn lemma_values(p: SpecParser, acc: Seq<SpecExpr>, close: SpecToken)
    ensures
        sound(p, values_spec(p, acc, close)),
    decreases p.tokens.len(), 6nat,
{
    lemma_parse(p);
    if let Ok((e, q)) = parse_spec(p) {
        if q.tokens.len() < p.tokens.len() {
            if closing_spec(q, close) is Ok {
                lemma_closing_then(p, q, close);
                if closing_spec(q, close) == Ok::<bool, SpecHalt>(false) {
                    lemma_values(skip(q, 1), acc.push(e), close);
                    lemma_chain(p, skip(q, 1), values_spec(skip(q, 1), acc.push(e), close));
                }
            }
        }
    }
}

/// Parsing an expression leaves a suffix of the tokens and a store of the same
/// length; and when every string token refers into the store, parsing never
/// stops on a string index outside it.
pub proof fn parsing_keeps_tokens_and_store(p: SpecParser)
    ensures
        parse_spec(p) matches Ok((_, q)) ==> keeps(p, q),
        strings_in_store(p) ==> no_index_panic(parse_spec(p)),
{
    lemma_parse(p);
}

/// Parsing what the lexer gives, with the string table it leaves as the store,
/// never stops on a string index outside the store.
pub proof fn lexed_strings_are_in_store(s: Seq<char>, t: Seq<Seq<char>>)
    ensures
        no_index_panic(parse_spec(SpecParser { tokens: lex(s, t).tokens, store: lex(s, t).table })),
{
    lexing_extends_table(s, t);
    lemma_parse(SpecParser { tokens: lex(s, t).tokens, store: lex(s, t).table });
}

proof fn lemma_quote_after(s: Seq<char>, i: int)
    requires
        1 <= i <= s.len() - 1,
        s[s.len() - 1] == '"',
        forall|j: int| 1 <= j < s.len() - 1 ==> s[j] != '"',
    ensures
        quote_at_or_after(s, i) == s.len() - 1,
    decreases s.len() - i,
{
    if i < s.len() - 1 {
        lemma_quote_after(s, i + 1);
    }
}

proof fn lemma_no_keyword_at_quote(s: Seq<char>, kw: Seq<char>)
    requires
        s.len() > 0,
        s[0] == '"',
        kw.len() > 0,
        kw[0] != '"',
    ensures
        !text_at(s, 0, kw),
{
    if text_at(s, 0, kw) {
        assert(s.subrange(0, kw.len() as int)[0] == s[0]);
    }
}

/// A string literal reads back as its text: lexing `"x"` (where `x` holds no
/// double quote) gives one string token, interned as `x`, and parsing that
/// token with the table gives the expression `x`, leaving an empty string in
/// the table's place.
pub proof fn string_literal_reads_back(x: Seq<char>, t: Seq<Seq<char>>)
    requires
        !x.contains('"'),
        t.len() < usize::MAX,
    ensures
        ({
            let s = seq!['"'] + x + seq!['"'];
            let (k, t2) = intern_spec(t, x);
            &&& lex(s, t).error_at is None
            &&& lex(s, t).tokens == seq![SpecToken::StringIndex(k as usize)]
            &&& lex(s, t).table == t2
            &&& t2[k] == x
            &&& parse_spec(SpecParser { tokens: lex(s, t).tokens, store: lex(s, t).table })
                == Ok::<(SpecExpr, SpecParser), SpecHalt>((SpecExpr::String(x), SpecParser { tokens: Seq::empty(), store: t2.update(k, Seq::empty()) }))
        }),
{
    let s = seq!['"'] + x + seq!['"'];
    let n = s.len() as int;
    assert(s[0] == '"');
    assert(s[n - 1] == '"');
    assert forall|j: int| 1 <= j < n - 1 implies s[j] != '"' by {
        assert(s[j] == x[j - 1]);
        if s[j] == '"' {
            assert(x.contains('"'));
        }
    }
    assert(blank_end(s, 0) == 0);
    assert(digit_end(s, 0) == 0);
    lemma_no_keyword_at_quote(s, kw_fn());
    lemma_no_keyword_at_quote(s, kw_enum());
    lemma_no_keyword_at_quote(s, kw_struct());
    lemma_no_keyword_at_quote(s, kw_let());
    lemma_quote_after(s, 1);
    assert(s.subrange(1, n - 1) =~= x);
    intern_finds_or_appends(t, x);
    let (k, t2) = intern_spec(t, x);
    assert(blank_end(s, n) == n);
    assert(lex_from(s, n, t2).tokens == Seq::<SpecToken>::empty());
    assert(seq![SpecToken::StringIndex(k as usize)] + Seq::<SpecToken>::empty() =~= seq![SpecToken::StringIndex(k as usize)]);
    let p = SpecParser { tokens: lex(s, t).tokens, store: lex(s, t).table };
    assert(p.tokens.skip(1) =~= Seq::<SpecToken>::empty());
}


/// Whether the parsers `ps[i]` read the expressions `es[i]` one after another,
/// leaving `qs[i]`: each step consumes tokens, and after each but the last
/// comes a comma, after which the next starts.
pub open spec fn read_in_turn(ps: Seq<SpecParser>, qs: Seq<SpecParser>, es: Seq<SpecExpr>) -> bool {
    &&& ps.len() == es.len()
    &&& qs.len() == es.len()
    &&& forall|i: int| 0 <= i < es.len() ==> #[trigger] parse_spec(ps[i]) == Ok::<(SpecExpr, SpecParser), SpecHalt>((es[i], qs[i]))
    &&& forall|i: int| 0 <= i < es.len() ==> (#[trigger] qs[i]).tokens.len() < ps[i].tokens.len()
    &&& forall|i: int| 0 <= i < es.len() - 1 ==> (#[trigger] qs[i]).tokens.len() > 0 && qs[i].tokens[0] is Comma && ps[i + 1] == skip(qs[i], 1)
}

proof fn lemma_values_in_turn(ps: Seq<SpecParser>, qs: Seq<SpecParser>, es: Seq<SpecExpr>, k: int)
    requires
        read_in_turn(ps, qs, es),
        0 <= k < es.len(),
        qs[es.len() - 1].tokens.len() > 0,
        qs[es.len() - 1].tokens[0] is RParen,
    ensures
        values_spec(ps[k], es.take(k), SpecToken::RParen) == Ok::<(Seq<SpecExpr>, SpecParser), SpecHalt>((es, skip(qs[es.len() - 1], 1))),
    decreases es.len() - k,
{
    let n = es.len() as int;
    assert(parse_spec(ps[k]) == Ok::<(SpecExpr, SpecParser), SpecHalt>((es[k], qs[k])));
    assert(qs[k].tokens.len() < ps[k].tokens.len());
    assert(es.take(k).push(es[k]) =~= es.take(k + 1));
    if k == n - 1 {
        assert(es.take(k + 1) =~= es);
    } else {
        assert(qs[k].tokens.len() > 0 && qs[k].tokens[0] is Comma && ps[k + 1] == skip(qs[k], 1));
        lemma_values_in_turn(ps, qs, es, k + 1);
    }
}

/// A call keeps all its arguments, in order: when the tokens after `name(`
/// read as the expressions `es` one after another, separated by commas and
/// followed by `)`, the call is `name` with exactly the arguments `es`, and
/// parsing goes on after the `)`.
pub proof fn call_keeps_its_arguments(p: SpecParser, name: Seq<char>, ps: Seq<SpecParser>, qs: Seq<SpecParser>, es: Seq<SpecExpr>)
    requires
        p.tokens.len() >= 2,
        p.tokens[0] == SpecToken::Ident(name),
        p.tokens[1] is LParen,
        read_in_turn(ps, qs, es),
        es.len() == 0 ==> p.tokens.len() >= 3 && p.tokens[2] is RParen,
        es.len() > 0 ==> ps[0] == skip(p, 2) && qs[es.len() - 1].tokens.len() > 0 && qs[es.len() - 1].tokens[0] is RParen,
    ensures
        parse_spec(p) == Ok::<(SpecExpr, SpecParser), SpecHalt>((
            SpecExpr::FnCall { name, arguments: es },
            if es.len() == 0 { skip(p, 3) } else { skip(qs[es.len() - 1], 1) },
        )),
{
    let q = skip(p, 1);
    assert(skip(q, 1) == skip(p, 2)) by {
        assert(q.tokens.skip(1) =~= p.tokens.skip(2));
    }
    assert(skip(skip(q, 1), 1) == skip(p, 3)) by {
        assert(q.tokens.skip(1).skip(1) =~= p.tokens.skip(3));
    }
    assert(q.tokens[0] == p.tokens[1]);
    assert(parse_spec(p) == ident_spec(p));
    assert(ident_spec(p) == call_spec(p));
    assert(pattern_ident_spec(p) == Ok::<(Seq<char>, SpecParser), SpecHalt>((name, q)));
    if es.len() > 0 {
        assert(skip(p, 2).tokens[0] == p.tokens[2]);
        assert(parse_spec(ps[0]) == Ok::<(SpecExpr, SpecParser), SpecHalt>((es[0], qs[0])));
        assert(!(ps[0].tokens[0] is RParen)) by {
            if ps[0].tokens[0] is RParen {
                assert(parse_spec(ps[0]) is Err);
            }
        }
        assert(es.take(0) =~= Seq::<SpecExpr>::empty());
        lemma_values_in_turn(ps, qs, es, 0);
        assert(values_spec(skip(p, 2), Seq::empty(), SpecToken::RParen) == Ok::<(Seq<SpecExpr>, SpecParser), SpecHalt>((es, skip(qs[es.len() - 1], 1))));
        assert(delimitered_spec(q, SpecToken::LParen, SpecToken::RParen) == values_spec(skip(p, 2), Seq::empty(), SpecToken::RParen));
        assert(call_spec(p) == Ok::<(SpecExpr, SpecParser), SpecHalt>((SpecExpr::FnCall { name, arguments: es }, skip(qs[es.len() - 1], 1))));
    } else {
        assert(skip(p, 2).tokens[0] == p.tokens[2]);
        assert(delimitered_spec(q, SpecToken::LParen, SpecToken::RParen) == Ok::<(Seq<SpecExpr>, SpecParser), SpecHalt>((Seq::empty(), skip(p, 3))));
        assert(es =~= Seq::<SpecExpr>::empty());
        assert(call_spec(p) == Ok::<(SpecExpr, SpecParser), SpecHalt>((SpecExpr::FnCall { name, arguments: es }, skip(p, 3))));
    }
}

/// Whether the parsers `ps[i]` read the expressions `es[i]` one after another,
/// leaving `qs[i]`, each step consuming tokens and the next starting where the
/// last one stopped, none of them at a `}`.
pub open spec fn read_in_sequence(ps: Seq<SpecParser>, qs: Seq<SpecParser>, es: Seq<SpecExpr>) -> bool {
    &&& ps.len() == es.len()
    &&& qs.len() == es.len()
    &&& forall|i: int| 0 <= i < es.len() ==> #[trigger] parse_spec(ps[i]) == Ok::<(SpecExpr, SpecParser), SpecHalt>((es[i], qs[i]))
    &&& forall|i: int| 0 <= i < es.len() ==> (#[trigger] qs[i]).tokens.len() < ps[i].tokens.len()
    &&& forall|i: int| 0 <= i < es.len() ==> (#[trigger] ps[i]).tokens.len() > 0 && !(ps[i].tokens[0] is RBrace)
    &&& forall|i: int| 0 <= i < es.len() - 1 ==> ps[i + 1] == #[trigger] qs[i]
}

proof fn lemma_block_in_sequence(ps: Seq<SpecParser>, qs: Seq<SpecParser>, es: Seq<SpecExpr>, k: int, last: SpecParser)
    requires
        read_in_sequence(ps, qs, es),
        0 <= k < es.len(),
        last == qs[es.len() - 1],
        last.tokens.len() > 0,
        last.tokens[0] is RBrace,
    ensures
        block_items_spec(ps[k], es.take(k)) == Ok::<(Seq<SpecExpr>, SpecParser), SpecHalt>((es, last)),
    decreases es.len() - k,
{
    let n = es.len() as int;
    assert(parse_spec(ps[k]) == Ok::<(SpecExpr, SpecParser), SpecHalt>((es[k], qs[k])));
    assert(qs[k].tokens.len() < ps[k].tokens.len());
    assert(ps[k].tokens.len() > 0 && !(ps[k].tokens[0] is RBrace));
    assert(es.take(k).push(es[k]) =~= es.take(k + 1));
    assert(block_items_spec(ps[k], es.take(k)) == block_items_spec(qs[k], es.take(k + 1)));
    if k == n - 1 {
        assert(es.take(k + 1) =~= es);
        assert(block_items_spec(last, es) == Ok::<(Seq<SpecExpr>, SpecParser), SpecHalt>((es, last)));
    } else {
        assert(ps[k + 1] == qs[k]);
        lemma_block_in_sequence(ps, qs, es, k + 1, last);
    }
}

/// A block lists its expressions in the order they come: when the tokens after
/// `{` read as the expressions `es` one after another, followed by `}`, the
/// block holds exactly `es`, and the `}` is left in place.
pub proof fn block_keeps_its_order(p: SpecParser, ps: Seq<SpecParser>, qs: Seq<SpecParser>, es: Seq<SpecExpr>)
    requires
        p.tokens.len() >= 1,
        p.tokens[0] is LBrace,
        read_in_sequence(ps, qs, es),
        es.len() == 0 ==> p.tokens.len() >= 2 && p.tokens[1] is RBrace,
        es.len() > 0 ==> ps[0] == skip(p, 1) && qs[es.len() - 1].tokens.len() > 0 && qs[es.len() - 1].tokens[0] is RBrace,
    ensures
        parse_spec(p) == Ok::<(SpecExpr, SpecParser), SpecHalt>((
            SpecExpr::Block(es),
            if es.len() == 0 { skip(p, 1) } else { qs[es.len() - 1] },
        )),
{
    assert(skip(p, 1).tokens.len() > 0 ==> skip(p, 1).tokens[0] == p.tokens[1]);
    assert(parse_spec(p) == block_spec(p));
    assert(pattern_spec(p, TokenKind::LBrace) == Ok::<SpecParser, SpecHalt>(skip(p, 1)));
    if es.len() > 0 {
        assert(es.take(0) =~= Seq::<SpecExpr>::empty());
        lemma_block_in_sequence(ps, qs, es, 0, qs[es.len() - 1]);
        assert(block_items_spec(skip(p, 1), Seq::empty()) == Ok::<(Seq<SpecExpr>, SpecParser), SpecHalt>((es, qs[es.len() - 1])));
        assert(block_spec(p) == Ok::<(SpecExpr, SpecParser), SpecHalt>((SpecExpr::Block(es), qs[es.len() - 1])));
    } else {
        assert(block_items_spec(skip(p, 1), Seq::empty()) == Ok::<(Seq<SpecExpr>, SpecParser), SpecHalt>((Seq::empty(), skip(p, 1))));
        assert(es =~= Seq::<SpecExpr>::empty());
        assert(block_spec(p) == Ok::<(SpecExpr, SpecParser), SpecHalt>((SpecExpr::Block(es), skip(p, 1))));
    }
}


/// Whether the parsers `ps[i]` read the types `ts[i]` one after another,
/// leaving `qs[i]`: each step consumes tokens, and after each but the last
/// comes a comma, after which the next starts.
pub open spec fn types_in_turn(ps: Seq<SpecParser>, qs: Seq<SpecParser>, ts: Seq<SpecTypeExpr>) -> bool {
    &&& ps.len() == ts.len()
    &&& qs.len() == ts.len()
    &&& forall|i: int| 0 <= i < ts.len() ==> #[trigger] type_expr_spec(ps[i]) == Ok::<(SpecTypeExpr, SpecParser), SpecHalt>((ts[i], qs[i]))
    &&& forall|i: int| 0 <= i < ts.len() ==> (#[trigger] qs[i]).tokens.len() < ps[i].tokens.len()
    &&& forall|i: int| 0 <= i < ts.len() - 1 ==> (#[trigger] qs[i]).tokens.len() > 0 && qs[i].tokens[0] is Comma && ps[i + 1] == skip(qs[i], 1)
}

proof fn lemma_types_in_turn(ps: Seq<SpecParser>, qs: Seq<SpecParser>, ts: Seq<SpecTypeExpr>, k: int, close: SpecToken)
    requires
        types_in_turn(ps, qs, ts),
        0 <= k < ts.len(),
        !(close is Comma),
        qs[ts.len() - 1].tokens.len() > 0,
        qs[ts.len() - 1].tokens[0] == close,
    ensures
        types_spec(ps[k], ts.take(k), close) == Ok::<(Seq<SpecTypeExpr>, SpecParser), SpecHalt>((ts, skip(qs[ts.len() - 1], 1))),
    decreases ts.len() - k,
{
    let n = ts.len() as int;
    assert(type_expr_spec(ps[k]) == Ok::<(SpecTypeExpr, SpecParser), SpecHalt>((ts[k], qs[k])));
    assert(qs[k].tokens.len() < ps[k].tokens.len());
    assert(ts.take(k).push(ts[k]) =~= ts.take(k + 1));
    if k == n - 1 {
        assert(ts.take(k + 1) =~= ts);
    } else {
        assert(qs[k].tokens.len() > 0 && qs[k].tokens[0] is Comma && ps[k + 1] == skip(qs[k], 1));
        assert(qs[k].tokens[0] != close);
        lemma_types_in_turn(ps, qs, ts, k + 1, close);
    }
}

/// A list of types keeps every type, in order: when the tokens after the
/// opening token read as the types `ts` one after another, separated by commas
/// and followed by the closing token, the list is exactly `ts`, and parsing
/// goes on after the closing token.
pub proof fn type_list_keeps_its_types(p: SpecParser, open: SpecToken, close: SpecToken, ps: Seq<SpecParser>, qs: Seq<SpecParser>, ts: Seq<SpecTypeExpr>)
    requires
        p.tokens.len() >= 1,
        p.tokens[0] == open,
        !(close is Comma),
        types_in_turn(ps, qs, ts),
        ts.len() == 0 ==> p.tokens.len() >= 2 && p.tokens[1] is RParen,
        ts.len() > 0 ==> ps[0] == skip(p, 1) && qs[ts.len() - 1].tokens.len() > 0 && qs[ts.len() - 1].tokens[0] == close,
    ensures
        typed_delimitered_spec(p, open, close) == Ok::<(Seq<SpecTypeExpr>, SpecParser), SpecHalt>((
            ts,
            if ts.len() == 0 { skip(p, 2) } else { skip(qs[ts.len() - 1], 1) },
        )),
{
    let q = skip(p, 1);
    if ts.len() > 0 {
        assert(type_expr_spec(ps[0]) == Ok::<(SpecTypeExpr, SpecParser), SpecHalt>((ts[0], qs[0])));
        assert(q.tokens.len() > 0 && !(q.tokens[0] is RParen)) by {
            if q.tokens.len() == 0 || q.tokens[0] is RParen {
                assert(type_expr_spec(q) is Err);
            }
        }
        assert(ts.take(0) =~= Seq::<SpecTypeExpr>::empty());
        lemma_types_in_turn(ps, qs, ts, 0, close);
    } else {
        assert(q.tokens[0] == p.tokens[1]);
        assert(skip(q, 1) == skip(p, 2)) by {
            assert(q.tokens.skip(1) =~= p.tokens.skip(2));
        }
        assert(ts =~= Seq::<SpecTypeExpr>::empty());
    }
}

/// Whether the parsers `ps[i]` read the entries `name[i]: ts[i]` one after
/// another, leaving `qs[i]`: each starts with the name and `:`, its type is
/// read from the token after them, and after each but the last comes a comma,
/// after which the next starts.
pub open spec fn named_types_in_turn(ps: Seq<SpecParser>, qs: Seq<SpecParser>, names: Seq<Seq<char>>, ts: Seq<SpecTypeExpr>) -> bool {
    &&& ps.len() == ts.len()
    &&& qs.len() == ts.len()
    &&& names.len() == ts.len()
    &&& forall|i: int| 0 <= i < ts.len() ==> (#[trigger] ps[i]).tokens.len() >= 2 && ps[i].tokens[0] == SpecToken::Ident(names[i]) && ps[i].tokens[1] is Colon
    &&& forall|i: int| 0 <= i < ts.len() ==> #[trigger] type_expr_spec(skip(ps[i], 2)) == Ok::<(SpecTypeExpr, SpecParser), SpecHalt>((ts[i], qs[i]))
    &&& forall|i: int| 0 <= i < ts.len() ==> (#[trigger] qs[i]).tokens.len() < ps[i].tokens.len()
    &&& forall|i: int| 0 <= i < ts.len() - 1 ==> (#[trigger] qs[i]).tokens.len() > 0 && qs[i].tokens[0] is Comma && ps[i + 1] == skip(qs[i], 1)
}

/// The names paired with the types.
pub open spec fn paired(names: Seq<Seq<char>>, ts: Seq<SpecTypeExpr>) -> Seq<(Seq<char>, SpecTypeExpr)> {
    Seq::new(ts.len(), |i: int| (names[i], ts[i]))
}

proof fn lemma_named_in_turn(ps: Seq<SpecParser>, qs: Seq<SpecParser>, names: Seq<Seq<char>>, ts: Seq<SpecTypeExpr>, k: int, close: SpecToken)
    requires
        named_types_in_turn(ps, qs, names, ts),
        0 <= k < ts.len(),
        !(close is Comma),
        qs[ts.len() - 1].tokens.len() > 0,
        qs[ts.len() - 1].tokens[0] == close,
    ensures
        named_spec(ps[k], paired(names, ts).take(k), close)
            == Ok::<(Seq<(Seq<char>, SpecTypeExpr)>, SpecParser), SpecHalt>((paired(names, ts), skip(qs[ts.len() - 1], 1))),
    decreases ts.len() - k,
{
    let n = ts.len() as int;
    let pk = ps[k];
    assert(pk.tokens.len() >= 2 && pk.tokens[0] == SpecToken::Ident(names[k]) && pk.tokens[1] is Colon);
    assert(type_expr_spec(skip(pk, 2)) == Ok::<(SpecTypeExpr, SpecParser), SpecHalt>((ts[k], qs[k])));
    assert(pk.tokens.skip(1)[0] == pk.tokens[1]);
    assert(pk.tokens.skip(1).skip(1) =~= pk.tokens.skip(2));
    assert(pattern_ident_spec(pk) == Ok::<(Seq<char>, SpecParser), SpecHalt>((names[k], skip(pk, 1))));
    assert(pattern_spec(skip(pk, 1), TokenKind::Colon) == Ok::<SpecParser, SpecHalt>(skip(pk, 2)));
    assert(qs[k].tokens.len() < pk.tokens.len());
    assert(paired(names, ts).take(k).push((names[k], ts[k])) =~= paired(names, ts).take(k + 1));
    if k == n - 1 {
        assert(paired(names, ts).take(k + 1) =~= paired(names, ts));
    } else {
        assert(qs[k].tokens.len() > 0 && qs[k].tokens[0] is Comma && ps[k + 1] == skip(qs[k], 1));
        assert(qs[k].tokens[0] != close);
        lemma_named_in_turn(ps, qs, names, ts, k + 1, close);
    }
}

/// A list of named types keeps every entry, in order: when the tokens after the
/// opening token read as entries `names[i]: ts[i]` one after another,
/// separated by commas and followed by the closing token, the list is exactly
/// the pairs of `names` and `ts`, and parsing goes on after the closing token.
pub proof fn named_list_keeps_its_entries(p: SpecParser, open: SpecToken, close: SpecToken, ps: Seq<SpecParser>, qs: Seq<SpecParser>, names: Seq<Seq<char>>, ts: Seq<SpecTypeExpr>)
    requires
        p.tokens.len() >= 1,
        p.tokens[0] == open,
        !(close is Comma),
        named_types_in_turn(ps, qs, names, ts),
        ts.len() == 0 ==> p.tokens.len() >= 2 && p.tokens[1] is RParen,
        ts.len() > 0 ==> ps[0] == skip(p, 1) && qs[ts.len() - 1].tokens.len() > 0 && qs[ts.len() - 1].tokens[0] == close,
    ensures
        named_delimitered_spec(p, open, close) == Ok::<(Seq<(Seq<char>, SpecTypeExpr)>, SpecParser), SpecHalt>((
            paired(names, ts),
            if ts.len() == 0 { skip(p, 2) } else { skip(qs[ts.len() - 1], 1) },
        )),
{
    let q = skip(p, 1);
    if ts.len() > 0 {
        assert(q.tokens.len() >= 2 && q.tokens[0] == SpecToken::Ident(names[0]));
        assert(paired(names, ts).take(0) =~= Seq::<(Seq<char>, SpecTypeExpr)>::empty());
        lemma_named_in_turn(ps, qs, names, ts, 0, close);
    } else {
        assert(q.tokens[0] == p.tokens[1]);
        assert(skip(q, 1) == skip(p, 2)) by {
            assert(q.tokens.skip(1) =~= p.tokens.skip(2));
        }
        assert(paired(names, ts) =~= Seq::<(Seq<char>, SpecTypeExpr)>::empty());
    }
}


/// A function definition is made of its parts: its name, the named parameters
/// read after it, the type after `->` (or no type), and the block after that.
pub proof fn function_definition_holds_its_parts(
    p: SpecParser,
    name: Seq<char>,
    arguments: Seq<(Seq<char>, SpecTypeExpr)>,
    p3: SpecParser,
    return_type: SpecTypeExpr,
    p4: SpecParser,
    body: SpecExpr,
    p5: SpecParser,
)
    requires
        p.tokens.len() >= 2,
        p.tokens[0] is Fn,
        p.tokens[1] == SpecToken::Ident(name),
        named_delimitered_spec(skip(p, 2), SpecToken::LParen, SpecToken::RParen)
            == Ok::<(Seq<(Seq<char>, SpecTypeExpr)>, SpecParser), SpecHalt>((arguments, p3)),
        p3.tokens.len() > 0,
        p3.tokens[0] is Arrow ==> type_expr_spec(skip(p3, 1)) == Ok::<(SpecTypeExpr, SpecParser), SpecHalt>((return_type, p4)),
        !(p3.tokens[0] is Arrow) ==> return_type == SpecTypeExpr::Empty && p4 == p3,
        p4.tokens.len() > 0,
        p4.tokens[0] is LBrace,
        parse_spec(p4) == Ok::<(SpecExpr, SpecParser), SpecHalt>((body, p5)),
    ensures
        parse_spec(p) == Ok::<(SpecExpr, SpecParser), SpecHalt>((
            SpecExpr::FnDef { name, arguments, return_type, body: Box::new(body) },
            p5,
        )),
{
    let p1 = skip(p, 1);
    assert(p1.tokens[0] == p.tokens[1]);
    assert(skip(p1, 1) == skip(p, 2)) by {
        assert(p1.tokens.skip(1) =~= p.tokens.skip(2));
    }
    assert(pattern_spec(p, TokenKind::Fn) == Ok::<SpecParser, SpecHalt>(p1));
    assert(pattern_ident_spec(p1) == Ok::<(Seq<char>, SpecParser), SpecHalt>((name, skip(p, 2))));
    lemma_named_delimitered(skip(p, 2), SpecToken::LParen, SpecToken::RParen);
    lemma_return_type(p3);
    assert(return_type_spec(p3) == Ok::<(SpecTypeExpr, SpecParser), SpecHalt>((return_type, p4)));
    assert(p4.tokens.len() < p.tokens.len());
    assert(block_spec(p4) == parse_spec(p4));
    assert(parse_spec(p) == fn_def_spec(p));
}

} // verus!

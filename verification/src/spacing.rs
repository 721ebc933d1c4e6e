//! Laws on the blanks around a text: they do not change what it lexes to.
use crate::lexer::{
    alphanumeric, blanks_end_identifiers, blank_end, char_at, digit_end, ident_end, is_blank, kw_enum, kw_fn, kw_let, kw_return, kw_struct,
    lex, Lexed, lex_delimiter, lex_enum_def, lex_float, lex_fn, lex_fn_call, lex_fn_def, lex_from, lex_integer, lex_let,
    lex_operator, lex_punctuation, lex_return, lex_string, lex_struct_def, lex_token, lex_variable, quote_at_or_after, text_at,
};
use crate::token::SpecToken;
use vstd::prelude::*;

verus! {

proof fn lemma_blank_end_bounds(x: Seq<char>, i: int)
    requires
        0 <= i <= x.len(),
    ensures
        i <= blank_end(x, i) <= x.len(),
    decreases x.len() - i,
{
    if i < x.len() && is_blank(x[i]) {
        lemma_blank_end_bounds(x, i + 1);
    }
}

proof fn lemma_digit_end_bounds(x: Seq<char>, i: int)
    requires
        0 <= i <= x.len(),
    ensures
        i <= digit_end(x, i) <= x.len(),
    decreases x.len() - i,
{
    if i < x.len() && '0' <= x[i] <= '9' {
        lemma_digit_end_bounds(x, i + 1);
    }
}

proof fn lemma_ident_end_bounds(x: Seq<char>, i: int)
    requires
        0 <= i <= x.len(),
    ensures
        i <= ident_end(x, i) <= x.len(),
    decreases x.len() - i,
{
    if i < x.len() && (alphanumeric(x[i]) || x[i] == '_') {
        lemma_ident_end_bounds(x, i + 1);
    }
}

proof fn lemma_quote_bounds(x: Seq<char>, i: int)
    requires
        0 <= i <= x.len(),
    ensures
        i <= quote_at_or_after(x, i) <= x.len(),
    decreases x.len() - i,
{
    if i < x.len() && x[i] != '"' {
        lemma_quote_bounds(x, i + 1);
    }
}

/// Where the runs that the lexer measures end, they end inside the text.
proof fn lemma_run_bounds(x: Seq<char>)
    ensures
        forall|i: int| 0 <= i <= x.len() ==> i <= #[trigger] blank_end(x, i) <= x.len(),
        forall|i: int| 0 <= i <= x.len() ==> i <= #[trigger] digit_end(x, i) <= x.len(),
        forall|i: int| 0 <= i <= x.len() ==> i <= #[trigger] ident_end(x, i) <= x.len(),
        forall|i: int| 0 <= i <= x.len() ==> i <= #[trigger] quote_at_or_after(x, i) <= x.len(),
{
    assert forall|i: int| 0 <= i <= x.len() implies i <= #[trigger] blank_end(x, i) <= x.len() by {
        lemma_blank_end_bounds(x, i);
    }
    assert forall|i: int| 0 <= i <= x.len() implies i <= #[trigger] digit_end(x, i) <= x.len() by {
        lemma_digit_end_bounds(x, i);
    }
    assert forall|i: int| 0 <= i <= x.len() implies i <= #[trigger] ident_end(x, i) <= x.len() by {
        lemma_ident_end_bounds(x, i);
    }
    assert forall|i: int| 0 <= i <= x.len() implies i <= #[trigger] quote_at_or_after(x, i) <= x.len() by {
        lemma_quote_bounds(x, i);
    }
}

proof fn lemma_keyword_lengths()
    ensures
        kw_fn().len() == 2,
        kw_enum().len() == 4,
        kw_struct().len() == 6,
        kw_let().len() == 3,
        kw_return().len() == 6,
{
}

/// The tokens that start at `j` end after `j` and inside the text.
proof fn lemma_token_bounds(x: Seq<char>, j: int, t: Seq<Seq<char>>)
    requires
        0 <= j <= x.len(),
    ensures
        lex_token(x, j, t) matches Some((_, p, _)) ==> j < p <= x.len(),
{
    lemma_run_bounds(x);
    lemma_keyword_lengths();
}


proof fn lemma_shift_blank(w: Seq<char>, s: Seq<char>, i: int)
    requires
        w.len() <= i <= w.len() + s.len(),
    ensures
        blank_end(w + s, i) == blank_end(s, i - w.len()) + w.len(),
    decreases w.len() + s.len() - i,
{
    let x = w + s;
    if i < x.len() {
        assert(x[i] == s[i - w.len()]);
        if is_blank(x[i]) {
            lemma_shift_blank(w, s, i + 1);
        }
    }
}

proof fn lemma_shift_digit(w: Seq<char>, s: Seq<char>, i: int)
    requires
        w.len() <= i <= w.len() + s.len(),
    ensures
        digit_end(w + s, i) == digit_end(s, i - w.len()) + w.len(),
    decreases w.len() + s.len() - i,
{
    let x = w + s;
    if i < x.len() {
        assert(x[i] == s[i - w.len()]);
        if '0' <= x[i] <= '9' {
            lemma_shift_digit(w, s, i + 1);
        }
    }
}

proof fn lemma_shift_ident(w: Seq<char>, s: Seq<char>, i: int)
    requires
        w.len() <= i <= w.len() + s.len(),
    ensures
        ident_end(w + s, i) == ident_end(s, i - w.len()) + w.len(),
    decreases w.len() + s.len() - i,
{
    let x = w + s;
    if i < x.len() {
        assert(x[i] == s[i - w.len()]);
        if alphanumeric(x[i]) || x[i] == '_' {
            lemma_shift_ident(w, s, i + 1);
        }
    }
}

proof fn lemma_shift_quote(w: Seq<char>, s: Seq<char>, i: int)
    requires
        w.len() <= i <= w.len() + s.len(),
    ensures
        quote_at_or_after(w + s, i) == quote_at_or_after(s, i - w.len()) + w.len(),
    decreases w.len() + s.len() - i,
{
    let x = w + s;
    if i < x.len() {
        assert(x[i] == s[i - w.len()]);
        if x[i] != '"' {
            lemma_shift_quote(w, s, i + 1);
        }
    }
}

/// Read from position `w.len()` on, `w + s` is `s`.
proof fn lemma_shift(w: Seq<char>, s: Seq<char>)
    ensures
        forall|i: int| w.len() <= i <= w.len() + s.len() ==> #[trigger] blank_end(w + s, i) == blank_end(s, i - w.len()) + w.len(),
        forall|i: int| w.len() <= i <= w.len() + s.len() ==> #[trigger] digit_end(w + s, i) == digit_end(s, i - w.len()) + w.len(),
        forall|i: int| w.len() <= i <= w.len() + s.len() ==> #[trigger] ident_end(w + s, i) == ident_end(s, i - w.len()) + w.len(),
        forall|i: int| w.len() <= i <= w.len() + s.len() ==> #[trigger] quote_at_or_after(w + s, i) == quote_at_or_after(s, i - w.len()) + w.len(),
        forall|i: int, c: char| w.len() <= i ==> #[trigger] char_at(w + s, i, c) == char_at(s, i - w.len(), c),
        forall|i: int, kw: Seq<char>| w.len() <= i ==> #[trigger] text_at(w + s, i, kw) == text_at(s, i - w.len(), kw),
        forall|a: int, b: int| w.len() <= a <= b <= w.len() + s.len() ==> #[trigger] (w + s).subrange(a, b) == s.subrange(a - w.len(), b - w.len()),
{
    let x = w + s;
    let n = w.len() as int;
    assert forall|i: int| n <= i <= n + s.len() implies #[trigger] blank_end(x, i) == blank_end(s, i - n) + n by {
        lemma_shift_blank(w, s, i);
    }
    assert forall|i: int| n <= i <= n + s.len() implies #[trigger] digit_end(x, i) == digit_end(s, i - n) + n by {
        lemma_shift_digit(w, s, i);
    }
    assert forall|i: int| n <= i <= n + s.len() implies #[trigger] ident_end(x, i) == ident_end(s, i - n) + n by {
        lemma_shift_ident(w, s, i);
    }
    assert forall|i: int| n <= i <= n + s.len() implies #[trigger] quote_at_or_after(x, i) == quote_at_or_after(s, i - n) + n by {
        lemma_shift_quote(w, s, i);
    }
    assert forall|i: int, c: char| n <= i implies #[trigger] char_at(x, i, c) == char_at(s, i - n, c) by {
        if 0 <= i < x.len() {
            assert(x[i] == s[i - n]);
        }
    }
    assert forall|a: int, b: int| n <= a <= b <= n + s.len() implies #[trigger] x.subrange(a, b) == s.subrange(a - n, b - n) by {
        assert(x.subrange(a, b) =~= s.subrange(a - n, b - n));
    }
    assert forall|i: int, kw: Seq<char>| n <= i implies #[trigger] text_at(x, i, kw) == text_at(s, i - n, kw) by {
        if i + kw.len() <= x.len() {
            assert(x.subrange(i, i + kw.len()) =~= s.subrange(i - n, i - n + kw.len()));
        }
    }
}

/// A lexing result with its position moved on by `n`.
pub open spec fn shifted(r: Option<(Seq<SpecToken>, int, Seq<Seq<char>>)>, n: int) -> Option<(Seq<SpecToken>, int, Seq<Seq<char>>)> {
    match r {
        Some((ts, p, t2)) => Some((ts, p + n, t2)),
        None => None,
    }
}

/// A batch of tokens with its position moved on by `n`.
pub open spec fn shifted_many(r: Option<(Seq<SpecToken>, int)>, n: int) -> Option<(Seq<SpecToken>, int)> {
    match r {
        Some((ts, p)) => Some((ts, p + n)),
        None => None,
    }
}

/// A token with its position moved on by `n`.
pub open spec fn shifted_one(r: Option<(SpecToken, int)>, n: int) -> Option<(SpecToken, int)> {
    match r {
        Some((tk, p)) => Some((tk, p + n)),
        None => None,
    }
}

/// A token and table with its position moved on by `n`.
pub open spec fn shifted_one_table(r: Option<(SpecToken, int, Seq<Seq<char>>)>, n: int) -> Option<(SpecToken, int, Seq<Seq<char>>)> {
    match r {
        Some((tk, p, t2)) => Some((tk, p + n, t2)),
        None => None,
    }
}

proof fn lemma_shift_fn_def(w: Seq<char>, s: Seq<char>, j: int)
    requires
        w.len() <= j <= w.len() + s.len(),
    ensures
        lex_fn_def(w + s, j) == shifted_many(lex_fn_def(s, j - w.len()), w.len() as int),
{
    lemma_shift(w, s);
    lemma_run_bounds(s);
    lemma_keyword_lengths();
}

proof fn lemma_shift_fn(w: Seq<char>, s: Seq<char>, j: int)
    requires
        w.len() <= j <= w.len() + s.len(),
    ensures
        lex_fn(w + s, j) == shifted_many(lex_fn(s, j - w.len()), w.len() as int),
{
    lemma_shift(w, s);
    lemma_run_bounds(s);
    lemma_keyword_lengths();
}

proof fn lemma_shift_enum_def(w: Seq<char>, s: Seq<char>, j: int)
    requires
        w.len() <= j <= w.len() + s.len(),
    ensures
        lex_enum_def(w + s, j) == shifted_many(lex_enum_def(s, j - w.len()), w.len() as int),
{
    lemma_shift(w, s);
    lemma_run_bounds(s);
    lemma_keyword_lengths();
}

proof fn lemma_shift_struct_def(w: Seq<char>, s: Seq<char>, j: int)
    requires
        w.len() <= j <= w.len() + s.len(),
    ensures
        lex_struct_def(w + s, j) == shifted_many(lex_struct_def(s, j - w.len()), w.len() as int),
{
    lemma_shift(w, s);
    lemma_run_bounds(s);
    lemma_keyword_lengths();
}

proof fn lemma_shift_let(w: Seq<char>, s: Seq<char>, j: int)
    requires
        w.len() <= j <= w.len() + s.len(),
    ensures
        lex_let(w + s, j) == shifted_many(lex_let(s, j - w.len()), w.len() as int),
{
    lemma_shift(w, s);
    lemma_run_bounds(s);
    lemma_keyword_lengths();
}

proof fn lemma_shift_float(w: Seq<char>, s: Seq<char>, j: int)
    requires
        w.len() <= j <= w.len() + s.len(),
    ensures
        lex_float(w + s, j) == shifted_one(lex_float(s, j - w.len()), w.len() as int),
{
    lemma_shift(w, s);
    lemma_run_bounds(s);
    lemma_keyword_lengths();
}

proof fn lemma_shift_integer(w: Seq<char>, s: Seq<char>, j: int)
    requires
        w.len() <= j <= w.len() + s.len(),
    ensures
        lex_integer(w + s, j) == shifted_one(lex_integer(s, j - w.len()), w.len() as int),
{
    lemma_shift(w, s);
    lemma_run_bounds(s);
    lemma_keyword_lengths();
}

proof fn lemma_shift_punctuation(w: Seq<char>, s: Seq<char>, j: int)
    requires
        w.len() <= j <= w.len() + s.len(),
    ensures
        lex_punctuation(w + s, j) == shifted_one(lex_punctuation(s, j - w.len()), w.len() as int),
{
    lemma_shift(w, s);
    lemma_run_bounds(s);
    lemma_keyword_lengths();
}

proof fn lemma_shift_delimiter(w: Seq<char>, s: Seq<char>, j: int)
    requires
        w.len() <= j <= w.len() + s.len(),
    ensures
        lex_delimiter(w + s, j) == shifted_one(lex_delimiter(s, j - w.len()), w.len() as int),
{
    lemma_shift(w, s);
    lemma_run_bounds(s);
    lemma_keyword_lengths();
}

proof fn lemma_shift_operator(w: Seq<char>, s: Seq<char>, j: int)
    requires
        w.len() <= j <= w.len() + s.len(),
    ensures
        lex_operator(w + s, j) == shifted_one(lex_operator(s, j - w.len()), w.len() as int),
{
    lemma_shift(w, s);
    lemma_run_bounds(s);
    lemma_keyword_lengths();
}

proof fn lemma_shift_fn_call(w: Seq<char>, s: Seq<char>, j: int)
    requires
        w.len() <= j <= w.len() + s.len(),
    ensures
        lex_fn_call(w + s, j) == shifted_one(lex_fn_call(s, j - w.len()), w.len() as int),
{
    lemma_shift(w, s);
    lemma_run_bounds(s);
    lemma_keyword_lengths();
}

proof fn lemma_shift_variable(w: Seq<char>, s: Seq<char>, j: int)
    requires
        w.len() <= j <= w.len() + s.len(),
    ensures
        lex_variable(w + s, j) == shifted_one(lex_variable(s, j - w.len()), w.len() as int),
{
    lemma_shift(w, s);
    lemma_run_bounds(s);
    lemma_keyword_lengths();
}

proof fn lemma_shift_return(w: Seq<char>, s: Seq<char>, j: int)
    requires
        w.len() <= j <= w.len() + s.len(),
    ensures
        lex_return(w + s, j) == shifted_one(lex_return(s, j - w.len()), w.len() as int),
{
    lemma_shift(w, s);
    lemma_run_bounds(s);
    lemma_keyword_lengths();
}

proof fn lemma_shift_string(w: Seq<char>, s: Seq<char>, j: int, t: Seq<Seq<char>>)
    requires
        w.len() <= j <= w.len() + s.len(),
    ensures
        lex_string(w + s, j, t) == shifted_one_table(lex_string(s, j - w.len(), t), w.len() as int),
{
    lemma_shift(w, s);
    lemma_run_bounds(s);
}

proof fn lemma_shift_token(w: Seq<char>, s: Seq<char>, j: int, t: Seq<Seq<char>>)
    requires
        w.len() <= j <= w.len() + s.len(),
    ensures
        lex_token(w + s, j, t) == shifted(lex_token(s, j - w.len(), t), w.len() as int),
{
    lemma_shift_fn_def(w, s, j);
    lemma_shift_fn(w, s, j);
    lemma_shift_enum_def(w, s, j);
    lemma_shift_struct_def(w, s, j);
    lemma_shift_let(w, s, j);
    lemma_shift_float(w, s, j);
    lemma_shift_integer(w, s, j);
    lemma_shift_punctuation(w, s, j);
    lemma_shift_delimiter(w, s, j);
    lemma_shift_operator(w, s, j);
    lemma_shift_fn_call(w, s, j);
    lemma_shift_variable(w, s, j);
    lemma_shift_return(w, s, j);
    lemma_shift_string(w, s, j, t);
}


/// Where lexing stopped, moved on by `n`.
pub open spec fn shifted_error(e: Option<int>, n: int) -> Option<int> {
    match e {
        Some(p) => Some(p + n),
        None => None,
    }
}

proof fn lemma_shift_from(w: Seq<char>, s: Seq<char>, i: int, t: Seq<Seq<char>>)
    requires
        w.len() <= i <= w.len() + s.len(),
    ensures
        lex_from(w + s, i, t).tokens == lex_from(s, i - w.len(), t).tokens,
        lex_from(w + s, i, t).table == lex_from(s, i - w.len(), t).table,
        lex_from(w + s, i, t).error_at == shifted_error(lex_from(s, i - w.len(), t).error_at, w.len() as int),
    decreases w.len() + s.len() - i,
{
    let x = w + s;
    let n = w.len() as int;
    lemma_shift_blank(w, s, i);
    lemma_blank_end_bounds(s, i - n);
    let j = blank_end(x, i);
    assert(j == blank_end(s, i - n) + n);
    if j < x.len() {
        lemma_shift_token(w, s, j, t);
        match lex_token(s, j - n, t) {
            Some((ts, p, t2)) => {
                if i - n < p <= s.len() {
                    lemma_shift_from(w, s, p + n, t2);
                }
            },
            None => {},
        }
    }
}

proof fn lemma_blank_prefix(w: Seq<char>, s: Seq<char>, i: int)
    requires
        0 <= i <= w.len(),
        forall|k: int| 0 <= k < w.len() ==> is_blank(#[trigger] w[k]),
    ensures
        blank_end(w + s, i) == blank_end(w + s, w.len() as int),
    decreases w.len() - i,
{
    if i < w.len() {
        assert((w + s)[i] == w[i]);
        lemma_blank_prefix(w, s, i + 1);
    }
}

/// Blanks before a text do not change what it lexes to: the same tokens, the
/// same string table, and a stop on text that starts no token exactly when
/// the text alone stops (at the same place, moved on by the blanks).
pub proof fn leading_blanks_do_not_change_lexing(w: Seq<char>, s: Seq<char>, t: Seq<Seq<char>>)
    requires
        all_blank(w),
    ensures
        lex(w + s, t).tokens == lex(s, t).tokens,
        lex(w + s, t).table == lex(s, t).table,
        lex(w + s, t).error_at == shifted_error(lex(s, t).error_at, w.len() as int),
{
    let x = w + s;
    let n = w.len() as int;
    lemma_blank_prefix(w, s, 0);
    lemma_shift(w, s);
    lemma_run_bounds(x);
    lemma_shift_from(w, s, n, t);
    let j = blank_end(x, n);
    if j < x.len() {
        lemma_token_bounds(x, j, t);
    }
    assert(lex_from(x, 0, t) == lex_from(x, n, t));
}


/// Whether every character of `w` is blank.
pub open spec fn all_blank(w: Seq<char>) -> bool {
    forall|k: int| 0 <= k < w.len() ==> is_blank(#[trigger] w[k])
}

proof fn lemma_ext_blank(s: Seq<char>, w: Seq<char>, i: int)
    requires
        0 <= i <= s.len() + w.len(),
        all_blank(w),
    ensures
        i <= s.len() ==> blank_end(s + w, i) == (if blank_end(s, i) < s.len() { blank_end(s, i) } else { (s.len() + w.len()) as int }),
        i >= s.len() ==> blank_end(s + w, i) == s.len() + w.len(),
    decreases s.len() + w.len() - i,
{
    let x = s + w;
    if i < x.len() {
        if i < s.len() {
            assert(x[i] == s[i]);
        } else {
            assert(x[i] == w[i - s.len()]);
        }
        lemma_ext_blank(s, w, i + 1);
    }
}

proof fn lemma_ext_digit(s: Seq<char>, w: Seq<char>, i: int)
    requires
        0 <= i <= s.len() + w.len(),
        all_blank(w),
    ensures
        i <= s.len() ==> digit_end(s + w, i) == digit_end(s, i),
        i >= s.len() ==> digit_end(s + w, i) == i,
    decreases s.len() + w.len() - i,
{
    let x = s + w;
    if i < x.len() {
        if i < s.len() {
            assert(x[i] == s[i]);
            lemma_ext_digit(s, w, i + 1);
        } else {
            assert(x[i] == w[i - s.len()]);
        }
    }
}

proof fn lemma_ext_ident(s: Seq<char>, w: Seq<char>, i: int)
    requires
        0 <= i <= s.len() + w.len(),
        all_blank(w),
        blanks_end_identifiers(),
    ensures
        i <= s.len() ==> ident_end(s + w, i) == ident_end(s, i),
        i >= s.len() ==> ident_end(s + w, i) == i,
    decreases s.len() + w.len() - i,
{
    let x = s + w;
    if i < x.len() {
        if i < s.len() {
            assert(x[i] == s[i]);
            lemma_ext_ident(s, w, i + 1);
        } else {
            assert(x[i] == w[i - s.len()]);
            assert(is_blank(x[i]));
        }
    }
}

proof fn lemma_ext_quote(s: Seq<char>, w: Seq<char>, i: int)
    requires
        0 <= i <= s.len() + w.len(),
        all_blank(w),
    ensures
        i <= s.len() ==> quote_at_or_after(s + w, i) == (if quote_at_or_after(s, i) < s.len() { quote_at_or_after(s, i) } else { (s.len() + w.len()) as int }),
        i >= s.len() ==> quote_at_or_after(s + w, i) == s.len() + w.len(),
    decreases s.len() + w.len() - i,
{
    let x = s + w;
    if i < x.len() {
        if i < s.len() {
            assert(x[i] == s[i]);
        } else {
            assert(x[i] == w[i - s.len()]);
        }
        lemma_ext_quote(s, w, i + 1);
    }
}

/// Read up to the end of `s`, `s + w` is `s` when `w` is blank.
proof fn lemma_ext(s: Seq<char>, w: Seq<char>)
    requires
        all_blank(w),
        blanks_end_identifiers(),
    ensures
        forall|i: int| 0 <= i <= s.len() + w.len() ==> #[trigger] blank_end(s + w, i) == (if i <= s.len() && blank_end(s, i) < s.len() { blank_end(s, i) } else { (s.len() + w.len()) as int }),
        forall|i: int| 0 <= i <= s.len() + w.len() ==> #[trigger] digit_end(s + w, i) == (if i <= s.len() { digit_end(s, i) } else { i }),
        forall|i: int| 0 <= i <= s.len() + w.len() ==> #[trigger] ident_end(s + w, i) == (if i <= s.len() { ident_end(s, i) } else { i }),
        forall|i: int| 0 <= i <= s.len() + w.len() ==> #[trigger] quote_at_or_after(s + w, i) == (if i <= s.len() && quote_at_or_after(s, i) < s.len() { quote_at_or_after(s, i) } else { (s.len() + w.len()) as int }),
        forall|i: int, c: char| 0 <= i && !is_blank(c) ==> #[trigger] char_at(s + w, i, c) == char_at(s, i, c),
        forall|i: int, kw: Seq<char>| 0 <= i && kw.len() > 0 && (forall|m: int| 0 <= m < kw.len() ==> !is_blank(#[trigger] kw[m]))
            ==> #[trigger] text_at(s + w, i, kw) == text_at(s, i, kw),
        forall|a: int, b: int| 0 <= a <= b <= s.len() ==> #[trigger] (s + w).subrange(a, b) == s.subrange(a, b),
{
    let x = s + w;
    let n = s.len() as int;
    lemma_run_bounds(s);
    assert forall|i: int| 0 <= i <= n + w.len() implies #[trigger] blank_end(x, i) == (if i <= n && blank_end(s, i) < n { blank_end(s, i) } else { n + w.len() as int }) by {
        lemma_ext_blank(s, w, i);
    }
    assert forall|i: int| 0 <= i <= n + w.len() implies #[trigger] digit_end(x, i) == (if i <= n { digit_end(s, i) } else { i }) by {
        lemma_ext_digit(s, w, i);
    }
    assert forall|i: int| 0 <= i <= n + w.len() implies #[trigger] ident_end(x, i) == (if i <= n { ident_end(s, i) } else { i }) by {
        lemma_ext_ident(s, w, i);
    }
    assert forall|i: int| 0 <= i <= n + w.len() implies #[trigger] quote_at_or_after(x, i) == (if i <= n && quote_at_or_after(s, i) < n { quote_at_or_after(s, i) } else { n + w.len() as int }) by {
        lemma_ext_quote(s, w, i);
    }
    assert forall|i: int, c: char| 0 <= i && !is_blank(c) implies #[trigger] char_at(x, i, c) == char_at(s, i, c) by {
        if i < n {
            assert(x[i] == s[i]);
        } else if i < x.len() {
            assert(x[i] == w[i - n]);
        }
    }
    assert forall|a: int, b: int| 0 <= a <= b <= n implies #[trigger] x.subrange(a, b) == s.subrange(a, b) by {
        assert(x.subrange(a, b) =~= s.subrange(a, b));
    }
    assert forall|i: int, kw: Seq<char>| 0 <= i && kw.len() > 0 && (forall|m: int| 0 <= m < kw.len() ==> !is_blank(#[trigger] kw[m]))
        implies #[trigger] text_at(x, i, kw) == text_at(s, i, kw) by {
        if i + kw.len() <= n {
            assert(x.subrange(i, i + kw.len()) =~= s.subrange(i, i + kw.len()));
        } else if text_at(x, i, kw) {
            let p = if i >= n { i } else { n };
            assert(x.subrange(i, i + kw.len())[p - i] == x[p]);
            assert(x[p] == w[p - n]);
            assert(!is_blank(kw[p - i]));
        }
    }
}

proof fn lemma_keywords_not_blank()
    ensures
        forall|m: int| 0 <= m < kw_fn().len() ==> !is_blank(#[trigger] kw_fn()[m]),
        forall|m: int| 0 <= m < kw_enum().len() ==> !is_blank(#[trigger] kw_enum()[m]),
        forall|m: int| 0 <= m < kw_struct().len() ==> !is_blank(#[trigger] kw_struct()[m]),
        forall|m: int| 0 <= m < kw_let().len() ==> !is_blank(#[trigger] kw_let()[m]),
        forall|m: int| 0 <= m < kw_return().len() ==> !is_blank(#[trigger] kw_return()[m]),
{
    assert forall|m: int| 0 <= m < kw_fn().len() implies !is_blank(#[trigger] kw_fn()[m]) by {
        assert(m == 0 || m == 1);
    }
    assert forall|m: int| 0 <= m < kw_enum().len() implies !is_blank(#[trigger] kw_enum()[m]) by {
        assert(0 <= m < 4);
    }
    assert forall|m: int| 0 <= m < kw_struct().len() implies !is_blank(#[trigger] kw_struct()[m]) by {
        assert(0 <= m < 6);
    }
    assert forall|m: int| 0 <= m < kw_let().len() implies !is_blank(#[trigger] kw_let()[m]) by {
        assert(0 <= m < 3);
    }
    assert forall|m: int| 0 <= m < kw_return().len() implies !is_blank(#[trigger] kw_return()[m]) by {
        assert(0 <= m < 6);
    }
}

proof fn lemma_ext_fn_def(s: Seq<char>, w: Seq<char>, j: int)
    requires
        0 <= j <= s.len(),
        all_blank(w),
        blanks_end_identifiers(),
    ensures
        lex_fn_def(s + w, j) == lex_fn_def(s, j),
{
    lemma_ext(s, w);
    lemma_run_bounds(s);
    lemma_keyword_lengths();
    lemma_keywords_not_blank();
}

proof fn lemma_ext_fn(s: Seq<char>, w: Seq<char>, j: int)
    requires
        0 <= j <= s.len(),
        all_blank(w),
        blanks_end_identifiers(),
    ensures
        lex_fn(s + w, j) == lex_fn(s, j),
{
    lemma_ext(s, w);
    lemma_run_bounds(s);
    lemma_keyword_lengths();
    lemma_keywords_not_blank();
}

proof fn lemma_ext_enum_def(s: Seq<char>, w: Seq<char>, j: int)
    requires
        0 <= j <= s.len(),
        all_blank(w),
        blanks_end_identifiers(),
    ensures
        lex_enum_def(s + w, j) == lex_enum_def(s, j),
{
    lemma_ext(s, w);
    lemma_run_bounds(s);
    lemma_keyword_lengths();
    lemma_keywords_not_blank();
}

proof fn lemma_ext_struct_def(s: Seq<char>, w: Seq<char>, j: int)
    requires
        0 <= j <= s.len(),
        all_blank(w),
        blanks_end_identifiers(),
    ensures
        lex_struct_def(s + w, j) == lex_struct_def(s, j),
{
    lemma_ext(s, w);
    lemma_run_bounds(s);
    lemma_keyword_lengths();
    lemma_keywords_not_blank();
}

proof fn lemma_ext_let(s: Seq<char>, w: Seq<char>, j: int)
    requires
        0 <= j <= s.len(),
        all_blank(w),
        blanks_end_identifiers(),
    ensures
        lex_let(s + w, j) == lex_let(s, j),
{
    lemma_ext(s, w);
    lemma_run_bounds(s);
    lemma_keyword_lengths();
    lemma_keywords_not_blank();
}

proof fn lemma_ext_float(s: Seq<char>, w: Seq<char>, j: int)
    requires
        0 <= j <= s.len(),
        all_blank(w),
        blanks_end_identifiers(),
    ensures
        lex_float(s + w, j) == lex_float(s, j),
{
    lemma_ext(s, w);
    lemma_run_bounds(s);
    lemma_keyword_lengths();
    lemma_keywords_not_blank();
}

proof fn lemma_ext_integer(s: Seq<char>, w: Seq<char>, j: int)
    requires
        0 <= j <= s.len(),
        all_blank(w),
        blanks_end_identifiers(),
    ensures
        lex_integer(s + w, j) == lex_integer(s, j),
{
    lemma_ext(s, w);
    lemma_run_bounds(s);
    lemma_keyword_lengths();
    lemma_keywords_not_blank();
}

proof fn lemma_ext_punctuation(s: Seq<char>, w: Seq<char>, j: int)
    requires
        0 <= j <= s.len(),
        all_blank(w),
        blanks_end_identifiers(),
    ensures
        lex_punctuation(s + w, j) == lex_punctuation(s, j),
{
    lemma_ext(s, w);
    lemma_run_bounds(s);
    lemma_keyword_lengths();
    lemma_keywords_not_blank();
}

proof fn lemma_ext_delimiter(s: Seq<char>, w: Seq<char>, j: int)
    requires
        0 <= j <= s.len(),
        all_blank(w),
        blanks_end_identifiers(),
    ensures
        lex_delimiter(s + w, j) == lex_delimiter(s, j),
{
    lemma_ext(s, w);
    lemma_run_bounds(s);
    lemma_keyword_lengths();
    lemma_keywords_not_blank();
}

proof fn lemma_ext_operator(s: Seq<char>, w: Seq<char>, j: int)
    requires
        0 <= j <= s.len(),
        all_blank(w),
        blanks_end_identifiers(),
    ensures
        lex_operator(s + w, j) == lex_operator(s, j),
{
    lemma_ext(s, w);
    lemma_run_bounds(s);
    lemma_keyword_lengths();
    lemma_keywords_not_blank();
}

proof fn lemma_ext_fn_call(s: Seq<char>, w: Seq<char>, j: int)
    requires
        0 <= j <= s.len(),
        all_blank(w),
        blanks_end_identifiers(),
    ensures
        lex_fn_call(s + w, j) == lex_fn_call(s, j),
{
    lemma_ext(s, w);
    lemma_run_bounds(s);
    lemma_keyword_lengths();
    lemma_keywords_not_blank();
}

proof fn lemma_ext_variable(s: Seq<char>, w: Seq<char>, j: int)
    requires
        0 <= j <= s.len(),
        all_blank(w),
        blanks_end_identifiers(),
    ensures
        lex_variable(s + w, j) == lex_variable(s, j),
{
    lemma_ext(s, w);
    lemma_run_bounds(s);
    lemma_keyword_lengths();
    lemma_keywords_not_blank();
}

proof fn lemma_ext_return(s: Seq<char>, w: Seq<char>, j: int)
    requires
        0 <= j <= s.len(),
        all_blank(w),
        blanks_end_identifiers(),
    ensures
        lex_return(s + w, j) == lex_return(s, j),
{
    lemma_ext(s, w);
    lemma_run_bounds(s);
    lemma_keyword_lengths();
    lemma_keywords_not_blank();
}

proof fn lemma_ext_string(s: Seq<char>, w: Seq<char>, j: int, t: Seq<Seq<char>>)
    requires
        0 <= j <= s.len(),
        all_blank(w),
        blanks_end_identifiers(),
    ensures
        lex_string(s + w, j, t) == lex_string(s, j, t),
{
    lemma_ext(s, w);
    lemma_run_bounds(s);
}

proof fn lemma_ext_token(s: Seq<char>, w: Seq<char>, j: int, t: Seq<Seq<char>>)
    requires
        0 <= j <= s.len(),
        all_blank(w),
        blanks_end_identifiers(),
    ensures
        lex_token(s + w, j, t) == lex_token(s, j, t),
{
    lemma_ext_fn_def(s, w, j);
    lemma_ext_fn(s, w, j);
    lemma_ext_enum_def(s, w, j);
    lemma_ext_struct_def(s, w, j);
    lemma_ext_let(s, w, j);
    lemma_ext_float(s, w, j);
    lemma_ext_integer(s, w, j);
    lemma_ext_punctuation(s, w, j);
    lemma_ext_delimiter(s, w, j);
    lemma_ext_operator(s, w, j);
    lemma_ext_fn_call(s, w, j);
    lemma_ext_variable(s, w, j);
    lemma_ext_return(s, w, j);
    lemma_ext_string(s, w, j, t);
}

proof fn lemma_ext_from(s: Seq<char>, w: Seq<char>, i: int, t: Seq<Seq<char>>)
    requires
        0 <= i <= s.len(),
        all_blank(w),
        blanks_end_identifiers(),
    ensures
        lex_from(s + w, i, t) == lex_from(s, i, t),
    decreases s.len() - i,
{
    let x = s + w;
    lemma_ext(s, w);
    lemma_run_bounds(s);
    let j = blank_end(s, i);
    if j < s.len() {
        lemma_ext_token(s, w, j, t);
        lemma_token_bounds(s, j, t);
        match lex_token(s, j, t) {
            Some((ts, p, t2)) => {
                lemma_ext_from(s, w, p, t2);
            },
            None => {},
        }
    }
}

/// Blanks after a text do not change what it lexes to: the same tokens, the
/// same string table and the same stop, if any. This rests on blanks not being
/// identifier characters, which std documents of
/// `char::is_alphanumeric` and `blanks_are_not_identifier_chars` tests.
pub proof fn trailing_blanks_do_not_change_lexing(s: Seq<char>, w: Seq<char>, t: Seq<Seq<char>>)
    requires
        all_blank(w),
        blanks_end_identifiers(),
    ensures
        lex(s + w, t) == lex(s, t),
{
    lemma_ext_from(s, w, 0, t);
}


proof fn lemma_in_run_blank(a: Seq<char>, r: Seq<char>, b: Seq<char>, i: int)
    requires
        a.len() <= i <= a.len() + r.len(),
        all_blank(r),
    ensures
        blank_end(a + r + b, i) == blank_end(a + r + b, (a.len() + r.len()) as int),
    decreases a.len() + r.len() - i,
{
    if i < a.len() + r.len() {
        assert((a + r + b)[i] == r[i - a.len()]);
        lemma_in_run_blank(a, r, b, i + 1);
    }
}

proof fn lemma_in_run_quote(a: Seq<char>, r: Seq<char>, b: Seq<char>, i: int)
    requires
        a.len() <= i <= a.len() + r.len(),
        all_blank(r),
    ensures
        quote_at_or_after(a + r + b, i) == quote_at_or_after(a + r + b, (a.len() + r.len()) as int),
    decreases a.len() + r.len() - i,
{
    if i < a.len() + r.len() {
        assert((a + r + b)[i] == r[i - a.len()]);
        lemma_in_run_quote(a, r, b, i + 1);
    }
}

proof fn lemma_before_run_blank(a: Seq<char>, r: Seq<char>, b: Seq<char>, i: int)
    requires
        0 <= i <= a.len(),
        all_blank(r),
    ensures
        blank_end(a + r + b, i) == (if blank_end(a, i) < a.len() { blank_end(a, i) } else { blank_end(a + r + b, (a.len() + r.len()) as int) }),
    decreases a.len() - i,
{
    if i < a.len() {
        assert((a + r + b)[i] == a[i]);
        lemma_before_run_blank(a, r, b, i + 1);
    } else {
        lemma_in_run_blank(a, r, b, i);
    }
}

proof fn lemma_before_run_quote(a: Seq<char>, r: Seq<char>, b: Seq<char>, i: int)
    requires
        0 <= i <= a.len(),
        all_blank(r),
    ensures
        quote_at_or_after(a + r + b, i) == (if quote_at_or_after(a, i) < a.len() { quote_at_or_after(a, i) } else { quote_at_or_after(a + r + b, (a.len() + r.len()) as int) }),
    decreases a.len() - i,
{
    if i < a.len() {
        assert((a + r + b)[i] == a[i]);
        lemma_before_run_quote(a, r, b, i + 1);
    } else {
        lemma_in_run_quote(a, r, b, i);
    }
}

proof fn lemma_before_run_digit(a: Seq<char>, r: Seq<char>, b: Seq<char>, i: int)
    requires
        0 <= i <= a.len(),
        all_blank(r),
        r.len() > 0,
    ensures
        digit_end(a + r + b, i) == digit_end(a, i),
    decreases a.len() - i,
{
    if i < a.len() {
        assert((a + r + b)[i] == a[i]);
        lemma_before_run_digit(a, r, b, i + 1);
    } else {
        assert((a + r + b)[i] == r[0]);
    }
}

proof fn lemma_before_run_ident(a: Seq<char>, r: Seq<char>, b: Seq<char>, i: int)
    requires
        0 <= i <= a.len(),
        all_blank(r),
        r.len() > 0,
        blanks_end_identifiers(),
    ensures
        ident_end(a + r + b, i) == ident_end(a, i),
    decreases a.len() - i,
{
    if i < a.len() {
        assert((a + r + b)[i] == a[i]);
        lemma_before_run_ident(a, r, b, i + 1);
    } else {
        assert((a + r + b)[i] == r[0]);
        assert(is_blank(r[0]));
    }
}

/// Read from a position inside `a` (or at its end), `a + r + b` with a blank
/// run `r` is `a` up to the run, and the part after the run from there on.
proof fn lemma_before_run(a: Seq<char>, r: Seq<char>, b: Seq<char>)
    requires
        all_blank(r),
        r.len() > 0,
        blanks_end_identifiers(),
    ensures
        forall|i: int| 0 <= i <= a.len() ==> #[trigger] blank_end(a + r + b, i) == (if blank_end(a, i) < a.len() { blank_end(a, i) } else { blank_end(a + r + b, (a.len() + r.len()) as int) }),
        forall|i: int| 0 <= i <= a.len() ==> #[trigger] quote_at_or_after(a + r + b, i) == (if quote_at_or_after(a, i) < a.len() { quote_at_or_after(a, i) } else { quote_at_or_after(a + r + b, (a.len() + r.len()) as int) }),
        forall|i: int| 0 <= i <= a.len() ==> #[trigger] digit_end(a + r + b, i) == digit_end(a, i),
        forall|i: int| 0 <= i <= a.len() ==> #[trigger] ident_end(a + r + b, i) == ident_end(a, i),
        forall|i: int| a.len() <= i < a.len() + r.len() ==> #[trigger] digit_end(a + r + b, i) == i,
        forall|i: int, c: char| 0 <= i < a.len() + r.len() && !is_blank(c) ==> #[trigger] char_at(a + r + b, i, c) == char_at(a, i, c),
        forall|i: int, kw: Seq<char>| 0 <= i <= a.len() && kw.len() > 0 && (forall|m: int| 0 <= m < kw.len() ==> !is_blank(#[trigger] kw[m]))
            ==> #[trigger] text_at(a + r + b, i, kw) == text_at(a, i, kw),
        forall|p: int, q: int| 0 <= p <= q <= a.len() ==> #[trigger] (a + r + b).subrange(p, q) == a.subrange(p, q),
{
    let x = a + r + b;
    let n = a.len() as int;
    assert forall|i: int| 0 <= i <= n implies #[trigger] blank_end(x, i) == (if blank_end(a, i) < n { blank_end(a, i) } else { blank_end(x, n + r.len()) }) by {
        lemma_before_run_blank(a, r, b, i);
    }
    assert forall|i: int| 0 <= i <= n implies #[trigger] quote_at_or_after(x, i) == (if quote_at_or_after(a, i) < n { quote_at_or_after(a, i) } else { quote_at_or_after(x, n + r.len()) }) by {
        lemma_before_run_quote(a, r, b, i);
    }
    assert forall|i: int| 0 <= i <= n implies #[trigger] digit_end(x, i) == digit_end(a, i) by {
        lemma_before_run_digit(a, r, b, i);
    }
    assert forall|i: int| 0 <= i <= n implies #[trigger] ident_end(x, i) == ident_end(a, i) by {
        lemma_before_run_ident(a, r, b, i);
    }
    assert forall|i: int| n <= i < n + r.len() implies #[trigger] digit_end(x, i) == i by {
        assert(x[i] == r[i - n]);
    }
    assert forall|i: int, c: char| 0 <= i < n + r.len() && !is_blank(c) implies #[trigger] char_at(x, i, c) == char_at(a, i, c) by {
        if i < n {
            assert(x[i] == a[i]);
        } else {
            assert(x[i] == r[i - n]);
        }
    }
    assert forall|p: int, q: int| 0 <= p <= q <= n implies #[trigger] x.subrange(p, q) == a.subrange(p, q) by {
        assert(x.subrange(p, q) =~= a.subrange(p, q));
    }
    assert forall|i: int, kw: Seq<char>| 0 <= i <= n && kw.len() > 0 && (forall|m: int| 0 <= m < kw.len() ==> !is_blank(#[trigger] kw[m]))
        implies #[trigger] text_at(x, i, kw) == text_at(a, i, kw) by {
        if i + kw.len() <= n {
            assert(x.subrange(i, i + kw.len()) =~= a.subrange(i, i + kw.len()));
        } else if text_at(x, i, kw) {
            assert(x.subrange(i, i + kw.len())[n - i] == x[n]);
            assert(x[n] == r[0]);
            assert(!is_blank(kw[n - i]));
        }
    }
}

/// A position of `a + r1 + b` as a position of `a + r2 + b`: unchanged before
/// the run, moved by the difference of the runs' lengths after it.
pub open spec fn moved(i: int, at: int, len1: int, len2: int) -> int {
    if i <= at {
        i
    } else {
        i - len1 + len2
    }
}

/// Whether a position of `a + r1 + b` lies before the run or after it.
pub open spec fn off_run(i: int, at: int, len1: int) -> bool {
    i <= at || i >= at + len1
}

pub open spec fn moved_many(r: Option<(Seq<SpecToken>, int)>, at: int, len1: int, len2: int) -> Option<(Seq<SpecToken>, int)> {
    match r {
        Some((ts, p)) => Some((ts, moved(p, at, len1, len2))),
        None => None,
    }
}

pub open spec fn moved_one(r: Option<(SpecToken, int)>, at: int, len1: int, len2: int) -> Option<(SpecToken, int)> {
    match r {
        Some((tk, p)) => Some((tk, moved(p, at, len1, len2))),
        None => None,
    }
}

pub open spec fn moved_token(r: Option<(Seq<SpecToken>, int, Seq<Seq<char>>)>, at: int, len1: int, len2: int) -> Option<(Seq<SpecToken>, int, Seq<Seq<char>>)> {
    match r {
        Some((ts, p, t2)) => Some((ts, moved(p, at, len1, len2), t2)),
        None => None,
    }
}

pub open spec fn swap_ok(a: Seq<char>, r1: Seq<char>, r2: Seq<char>) -> bool {
    &&& all_blank(r1)
    &&& all_blank(r2)
    &&& r1.len() > 0
    &&& r2.len() > 0
    &&& blanks_end_identifiers()
}

proof fn lemma_swap_facts(a: Seq<char>, r1: Seq<char>, r2: Seq<char>, b: Seq<char>)
    requires
        swap_ok(a, r1, r2),
    ensures
        blank_end(a + r2 + b, (a.len() + r2.len()) as int) == moved(blank_end(a + r1 + b, (a.len() + r1.len()) as int), a.len() as int, r1.len() as int, r2.len() as int),
        quote_at_or_after(a + r2 + b, (a.len() + r2.len()) as int) == moved(quote_at_or_after(a + r1 + b, (a.len() + r1.len()) as int), a.len() as int, r1.len() as int, r2.len() as int),
        blank_end(a + r1 + b, (a.len() + r1.len()) as int) >= a.len() + r1.len(),
        quote_at_or_after(a + r1 + b, (a.len() + r1.len()) as int) >= a.len() + r1.len(),
{
    lemma_shift(a + r1, b);
    lemma_shift(a + r2, b);
    lemma_run_bounds(b);
    assert(a + r1 + b == (a + r1) + b);
}

proof fn lemma_swap_fn_def(a: Seq<char>, r1: Seq<char>, r2: Seq<char>, b: Seq<char>, j: int)
    requires
        swap_ok(a, r1, r2),
        0 <= j <= a.len(),
    ensures
        lex_fn_def(a + r2 + b, j) == moved_many(lex_fn_def(a + r1 + b, j), a.len() as int, r1.len() as int, r2.len() as int),
        lex_fn_def(a + r1 + b, j) matches Some((_, p)) ==> off_run(p, a.len() as int, r1.len() as int),
{
    lemma_before_run(a, r1, b);
    lemma_before_run(a, r2, b);
    lemma_swap_facts(a, r1, r2, b);
    lemma_shift(a + r1, b);
    lemma_shift(a + r2, b);
    lemma_run_bounds(a);
    lemma_run_bounds(b);
    lemma_keyword_lengths();
    lemma_keywords_not_blank();
}

proof fn lemma_swap_fn(a: Seq<char>, r1: Seq<char>, r2: Seq<char>, b: Seq<char>, j: int)
    requires
        swap_ok(a, r1, r2),
        0 <= j <= a.len(),
    ensures
        lex_fn(a + r2 + b, j) == moved_many(lex_fn(a + r1 + b, j), a.len() as int, r1.len() as int, r2.len() as int),
        lex_fn(a + r1 + b, j) matches Some((_, p)) ==> off_run(p, a.len() as int, r1.len() as int),
{
    lemma_before_run(a, r1, b);
    lemma_before_run(a, r2, b);
    lemma_swap_facts(a, r1, r2, b);
    lemma_shift(a + r1, b);
    lemma_shift(a + r2, b);
    lemma_run_bounds(a);
    lemma_run_bounds(b);
    lemma_keyword_lengths();
    lemma_keywords_not_blank();
}

proof fn lemma_swap_enum_def(a: Seq<char>, r1: Seq<char>, r2: Seq<char>, b: Seq<char>, j: int)
    requires
        swap_ok(a, r1, r2),
        0 <= j <= a.len(),
    ensures
        lex_enum_def(a + r2 + b, j) == moved_many(lex_enum_def(a + r1 + b, j), a.len() as int, r1.len() as int, r2.len() as int),
        lex_enum_def(a + r1 + b, j) matches Some((_, p)) ==> off_run(p, a.len() as int, r1.len() as int),
{
    lemma_before_run(a, r1, b);
    lemma_before_run(a, r2, b);
    lemma_swap_facts(a, r1, r2, b);
    lemma_shift(a + r1, b);
    lemma_shift(a + r2, b);
    lemma_run_bounds(a);
    lemma_run_bounds(b);
    lemma_keyword_lengths();
    lemma_keywords_not_blank();
}

proof fn lemma_swap_struct_def(a: Seq<char>, r1: Seq<char>, r2: Seq<char>, b: Seq<char>, j: int)
    requires
        swap_ok(a, r1, r2),
        0 <= j <= a.len(),
    ensures
        lex_struct_def(a + r2 + b, j) == moved_many(lex_struct_def(a + r1 + b, j), a.len() as int, r1.len() as int, r2.len() as int),
        lex_struct_def(a + r1 + b, j) matches Some((_, p)) ==> off_run(p, a.len() as int, r1.len() as int),
{
    lemma_before_run(a, r1, b);
    lemma_before_run(a, r2, b);
    lemma_swap_facts(a, r1, r2, b);
    lemma_shift(a + r1, b);
    lemma_shift(a + r2, b);
    lemma_run_bounds(a);
    lemma_run_bounds(b);
    lemma_keyword_lengths();
    lemma_keywords_not_blank();
}

proof fn lemma_swap_let(a: Seq<char>, r1: Seq<char>, r2: Seq<char>, b: Seq<char>, j: int)
    requires
        swap_ok(a, r1, r2),
        0 <= j <= a.len(),
    ensures
        lex_let(a + r2 + b, j) == moved_many(lex_let(a + r1 + b, j), a.len() as int, r1.len() as int, r2.len() as int),
        lex_let(a + r1 + b, j) matches Some((_, p)) ==> off_run(p, a.len() as int, r1.len() as int),
{
    lemma_before_run(a, r1, b);
    lemma_before_run(a, r2, b);
    lemma_swap_facts(a, r1, r2, b);
    lemma_shift(a + r1, b);
    lemma_shift(a + r2, b);
    lemma_run_bounds(a);
    lemma_run_bounds(b);
    lemma_keyword_lengths();
    lemma_keywords_not_blank();
}

proof fn lemma_swap_float(a: Seq<char>, r1: Seq<char>, r2: Seq<char>, b: Seq<char>, j: int)
    requires
        swap_ok(a, r1, r2),
        0 <= j <= a.len(),
    ensures
        lex_float(a + r2 + b, j) == moved_one(lex_float(a + r1 + b, j), a.len() as int, r1.len() as int, r2.len() as int),
        lex_float(a + r1 + b, j) matches Some((_, p)) ==> off_run(p, a.len() as int, r1.len() as int),
{
    lemma_before_run(a, r1, b);
    lemma_before_run(a, r2, b);
    lemma_swap_facts(a, r1, r2, b);
    lemma_shift(a + r1, b);
    lemma_shift(a + r2, b);
    lemma_run_bounds(a);
    lemma_run_bounds(b);
    lemma_keyword_lengths();
    lemma_keywords_not_blank();
}

proof fn lemma_swap_integer(a: Seq<char>, r1: Seq<char>, r2: Seq<char>, b: Seq<char>, j: int)
    requires
        swap_ok(a, r1, r2),
        0 <= j <= a.len(),
    ensures
        lex_integer(a + r2 + b, j) == moved_one(lex_integer(a + r1 + b, j), a.len() as int, r1.len() as int, r2.len() as int),
        lex_integer(a + r1 + b, j) matches Some((_, p)) ==> off_run(p, a.len() as int, r1.len() as int),
{
    lemma_before_run(a, r1, b);
    lemma_before_run(a, r2, b);
    lemma_swap_facts(a, r1, r2, b);
    lemma_shift(a + r1, b);
    lemma_shift(a + r2, b);
    lemma_run_bounds(a);
    lemma_run_bounds(b);
    lemma_keyword_lengths();
    lemma_keywords_not_blank();
}

proof fn lemma_swap_punctuation(a: Seq<char>, r1: Seq<char>, r2: Seq<char>, b: Seq<char>, j: int)
    requires
        swap_ok(a, r1, r2),
        0 <= j <= a.len(),
    ensures
        lex_punctuation(a + r2 + b, j) == moved_one(lex_punctuation(a + r1 + b, j), a.len() as int, r1.len() as int, r2.len() as int),
        lex_punctuation(a + r1 + b, j) matches Some((_, p)) ==> off_run(p, a.len() as int, r1.len() as int),
{
    lemma_before_run(a, r1, b);
    lemma_before_run(a, r2, b);
    lemma_swap_facts(a, r1, r2, b);
    lemma_shift(a + r1, b);
    lemma_shift(a + r2, b);
    lemma_run_bounds(a);
    lemma_run_bounds(b);
    lemma_keyword_lengths();
    lemma_keywords_not_blank();
}

proof fn lemma_swap_delimiter(a: Seq<char>, r1: Seq<char>, r2: Seq<char>, b: Seq<char>, j: int)
    requires
        swap_ok(a, r1, r2),
        0 <= j <= a.len(),
    ensures
        lex_delimiter(a + r2 + b, j) == moved_one(lex_delimiter(a + r1 + b, j), a.len() as int, r1.len() as int, r2.len() as int),
        lex_delimiter(a + r1 + b, j) matches Some((_, p)) ==> off_run(p, a.len() as int, r1.len() as int),
{
    lemma_before_run(a, r1, b);
    lemma_before_run(a, r2, b);
    lemma_swap_facts(a, r1, r2, b);
    lemma_shift(a + r1, b);
    lemma_shift(a + r2, b);
    lemma_run_bounds(a);
    lemma_run_bounds(b);
    lemma_keyword_lengths();
    lemma_keywords_not_blank();
}

proof fn lemma_swap_operator(a: Seq<char>, r1: Seq<char>, r2: Seq<char>, b: Seq<char>, j: int)
    requires
        swap_ok(a, r1, r2),
        0 <= j <= a.len(),
    ensures
        lex_operator(a + r2 + b, j) == moved_one(lex_operator(a + r1 + b, j), a.len() as int, r1.len() as int, r2.len() as int),
        lex_operator(a + r1 + b, j) matches Some((_, p)) ==> off_run(p, a.len() as int, r1.len() as int),
{
    lemma_before_run(a, r1, b);
    lemma_before_run(a, r2, b);
    lemma_swap_facts(a, r1, r2, b);
    lemma_shift(a + r1, b);
    lemma_shift(a + r2, b);
    lemma_run_bounds(a);
    lemma_run_bounds(b);
    lemma_keyword_lengths();
    lemma_keywords_not_blank();
}

proof fn lemma_swap_fn_call(a: Seq<char>, r1: Seq<char>, r2: Seq<char>, b: Seq<char>, j: int)
    requires
        swap_ok(a, r1, r2),
        0 <= j <= a.len(),
    ensures
        lex_fn_call(a + r2 + b, j) == moved_one(lex_fn_call(a + r1 + b, j), a.len() as int, r1.len() as int, r2.len() as int),
        lex_fn_call(a + r1 + b, j) matches Some((_, p)) ==> off_run(p, a.len() as int, r1.len() as int),
{
    lemma_before_run(a, r1, b);
    lemma_before_run(a, r2, b);
    lemma_swap_facts(a, r1, r2, b);
    lemma_shift(a + r1, b);
    lemma_shift(a + r2, b);
    lemma_run_bounds(a);
    lemma_run_bounds(b);
    lemma_keyword_lengths();
    lemma_keywords_not_blank();
}

proof fn lemma_swap_variable(a: Seq<char>, r1: Seq<char>, r2: Seq<char>, b: Seq<char>, j: int)
    requires
        swap_ok(a, r1, r2),
        0 <= j <= a.len(),
    ensures
        lex_variable(a + r2 + b, j) == moved_one(lex_variable(a + r1 + b, j), a.len() as int, r1.len() as int, r2.len() as int),
        lex_variable(a + r1 + b, j) matches Some((_, p)) ==> off_run(p, a.len() as int, r1.len() as int),
{
    lemma_before_run(a, r1, b);
    lemma_before_run(a, r2, b);
    lemma_swap_facts(a, r1, r2, b);
    lemma_shift(a + r1, b);
    lemma_shift(a + r2, b);
    lemma_run_bounds(a);
    lemma_run_bounds(b);
    lemma_keyword_lengths();
    lemma_keywords_not_blank();
}

proof fn lemma_swap_return(a: Seq<char>, r1: Seq<char>, r2: Seq<char>, b: Seq<char>, j: int)
    requires
        swap_ok(a, r1, r2),
        0 <= j <= a.len(),
    ensures
        lex_return(a + r2 + b, j) == moved_one(lex_return(a + r1 + b, j), a.len() as int, r1.len() as int, r2.len() as int),
        lex_return(a + r1 + b, j) matches Some((_, p)) ==> off_run(p, a.len() as int, r1.len() as int),
{
    lemma_before_run(a, r1, b);
    lemma_before_run(a, r2, b);
    lemma_swap_facts(a, r1, r2, b);
    lemma_shift(a + r1, b);
    lemma_shift(a + r2, b);
    lemma_run_bounds(a);
    lemma_run_bounds(b);
    lemma_keyword_lengths();
    lemma_keywords_not_blank();
}

pub open spec fn moved_one_table(r: Option<(SpecToken, int, Seq<Seq<char>>)>, at: int, len1: int, len2: int) -> Option<(SpecToken, int, Seq<Seq<char>>)> {
    match r {
        Some((tk, p, t2)) => Some((tk, moved(p, at, len1, len2), t2)),
        None => None,
    }
}

/// Whether a string literal that the lexer reads at `j` closes before `m`.
pub open spec fn literal_closes_before(s: Seq<char>, j: int, t: Seq<Seq<char>>, m: int) -> bool {
    lex_string(s, j, t) matches Some((_, q, _)) ==> q <= m
}

proof fn lemma_swap_string(a: Seq<char>, r1: Seq<char>, r2: Seq<char>, b: Seq<char>, j: int, t: Seq<Seq<char>>)
    requires
        swap_ok(a, r1, r2),
        0 <= j <= a.len(),
        literal_closes_before(a + r1 + b, j, t, a.len() as int),
    ensures
        lex_string(a + r2 + b, j, t) == moved_one_table(lex_string(a + r1 + b, j, t), a.len() as int, r1.len() as int, r2.len() as int),
        lex_string(a + r1 + b, j, t) matches Some((_, p, _)) ==> off_run(p, a.len() as int, r1.len() as int),
{
    lemma_before_run(a, r1, b);
    lemma_before_run(a, r2, b);
    lemma_swap_facts(a, r1, r2, b);
    lemma_shift(a + r1, b);
    lemma_shift(a + r2, b);
    lemma_run_bounds(a);
    lemma_run_bounds(b);
}

proof fn lemma_swap_token(a: Seq<char>, r1: Seq<char>, r2: Seq<char>, b: Seq<char>, j: int, t: Seq<Seq<char>>)
    requires
        swap_ok(a, r1, r2),
        0 <= j <= a.len(),
        literal_closes_before(a + r1 + b, j, t, a.len() as int),
    ensures
        lex_token(a + r2 + b, j, t) == moved_token(lex_token(a + r1 + b, j, t), a.len() as int, r1.len() as int, r2.len() as int),
        lex_token(a + r1 + b, j, t) matches Some((_, p, _)) ==> off_run(p, a.len() as int, r1.len() as int),
{
    lemma_swap_fn_def(a, r1, r2, b, j);
    lemma_swap_fn(a, r1, r2, b, j);
    lemma_swap_enum_def(a, r1, r2, b, j);
    lemma_swap_struct_def(a, r1, r2, b, j);
    lemma_swap_let(a, r1, r2, b, j);
    lemma_swap_float(a, r1, r2, b, j);
    lemma_swap_integer(a, r1, r2, b, j);
    lemma_swap_punctuation(a, r1, r2, b, j);
    lemma_swap_delimiter(a, r1, r2, b, j);
    lemma_swap_operator(a, r1, r2, b, j);
    lemma_swap_fn_call(a, r1, r2, b, j);
    lemma_swap_variable(a, r1, r2, b, j);
    lemma_swap_return(a, r1, r2, b, j);
    lemma_swap_string(a, r1, r2, b, j, t);
}

/// Whether lexing `s` from `i` with the table `t` reaches position `m`
/// outside string literals: every literal that it reads before `m` closes
/// before `m`.
pub open spec fn outside_literals(s: Seq<char>, i: int, t: Seq<Seq<char>>, m: int) -> bool
    decreases s.len() - i,
{
    let j = blank_end(s, i);
    if i < 0 || j >= m || j >= s.len() {
        true
    } else {
        match lex_token(s, j, t) {
            Some((ts, p, t2)) => literal_closes_before(s, j, t, m) && (i < p < m && p <= s.len() ==> outside_literals(s, p, t2, m)),
            None => true,
        }
    }
}

/// After the run the two texts are the part after it, so they lex alike.
proof fn lemma_swap_after(a: Seq<char>, r1: Seq<char>, r2: Seq<char>, b: Seq<char>, i: int, t: Seq<Seq<char>>)
    requires
        swap_ok(a, r1, r2),
        a.len() + r1.len() <= i <= a.len() + r1.len() + b.len(),
    ensures
        lex_from(a + r2 + b, moved(i, a.len() as int, r1.len() as int, r2.len() as int), t).tokens == lex_from(a + r1 + b, i, t).tokens,
        lex_from(a + r2 + b, moved(i, a.len() as int, r1.len() as int, r2.len() as int), t).table == lex_from(a + r1 + b, i, t).table,
        (lex_from(a + r2 + b, moved(i, a.len() as int, r1.len() as int, r2.len() as int), t).error_at is None)
            == (lex_from(a + r1 + b, i, t).error_at is None),
{
    assert(a + r1 + b == (a + r1) + b);
    lemma_shift_from(a + r1, b, i, t);
    lemma_shift_from(a + r2, b, i - r1.len() + r2.len(), t);
}

proof fn lemma_swap_from(a: Seq<char>, r1: Seq<char>, r2: Seq<char>, b: Seq<char>, i: int, t: Seq<Seq<char>>)
    requires
        swap_ok(a, r1, r2),
        0 <= i <= a.len(),
        outside_literals(a + r1 + b, i, t, a.len() as int),
    ensures
        lex_from(a + r2 + b, i, t).tokens == lex_from(a + r1 + b, i, t).tokens,
        lex_from(a + r2 + b, i, t).table == lex_from(a + r1 + b, i, t).table,
        (lex_from(a + r2 + b, i, t).error_at is None) == (lex_from(a + r1 + b, i, t).error_at is None),
    decreases a.len() - i,
{
    let x = a + r1 + b;
    let y = a + r2 + b;
    let n = a.len() as int;
    let l1 = r1.len() as int;
    let l2 = r2.len() as int;
    lemma_before_run(a, r1, b);
    lemma_before_run(a, r2, b);
    lemma_swap_facts(a, r1, r2, b);
    lemma_run_bounds(a);
    lemma_run_bounds(x);
    let j = blank_end(x, i);
    assert(blank_end(y, i) == moved(j, n, l1, l2));
    if j >= x.len() {
    } else if j >= n {
        assert(j >= n + l1);
        lemma_token_bounds(x, j, t);
        lemma_token_bounds(y, moved(j, n, l1, l2), t);
        assert(lex_from(x, i, t) == lex_from(x, n + l1, t));
        assert(lex_from(y, i, t) == lex_from(y, n + l2, t));
        lemma_swap_after(a, r1, r2, b, n + l1, t);
    } else {
        lemma_swap_token(a, r1, r2, b, j, t);
        lemma_token_bounds(x, j, t);
        match lex_token(x, j, t) {
            Some((ts, p, t2)) => {
                if p <= n {
                    lemma_swap_from(a, r1, r2, b, p, t2);
                } else {
                    lemma_swap_after(a, r1, r2, b, p, t2);
                }
            },
            None => {},
        }
    }
}

/// A run of blanks outside string literals can be replaced by another: the
/// text lexes to the same tokens and the same string table, and it stops on
/// text that starts no token exactly when the other does. (The run in
/// `a + r1 + b` is `r1`; "outside string literals" is as lexing that text
/// sees it.) This rests on blanks not being identifier characters, which std
/// documents of `char::is_alphanumeric` and `blanks_are_not_identifier_chars`
/// tests.
pub proof fn blank_runs_are_interchangeable(a: Seq<char>, r1: Seq<char>, r2: Seq<char>, b: Seq<char>, t: Seq<Seq<char>>)
    requires
        all_blank(r1),
        all_blank(r2),
        r1.len() > 0,
        r2.len() > 0,
        blanks_end_identifiers(),
        outside_literals(a + r1 + b, 0, t, a.len() as int),
    ensures
        lex(a + r2 + b, t).tokens == lex(a + r1 + b, t).tokens,
        lex(a + r2 + b, t).table == lex(a + r1 + b, t).table,
        (lex(a + r2 + b, t).error_at is None) == (lex(a + r1 + b, t).error_at is None),
{
    lemma_swap_from(a, r1, r2, b, 0, t);
}

/// Blanks around a text do not change what it lexes to: the same tokens, the
/// same string table, and a stop on text that starts no token exactly when the
/// text alone stops. This rests on blanks not being identifier characters,
/// which std documents of
/// `char::is_alphanumeric` and `blanks_are_not_identifier_chars` tests.
pub proof fn surrounding_blanks_do_not_change_lexing(w1: Seq<char>, s: Seq<char>, w2: Seq<char>, t: Seq<Seq<char>>)
    requires
        all_blank(w1),
        all_blank(w2),
        blanks_end_identifiers(),
    ensures
        lex(w1 + s + w2, t).tokens == lex(s, t).tokens,
        lex(w1 + s + w2, t).table == lex(s, t).table,
        (lex(w1 + s + w2, t).error_at is None) == (lex(s, t).error_at is None),
{
    assert(w1 + s + w2 == w1 + (s + w2));
    leading_blanks_do_not_change_lexing(w1, s + w2, t);
    trailing_blanks_do_not_change_lexing(s, w2, t);
}


proof fn lemma_blank_span(s: Seq<char>, i: int, e: int)
    requires
        0 <= i <= e <= s.len(),
        forall|k: int| i <= k < e ==> is_blank(#[trigger] s[k]),
        e == s.len() || !is_blank(s[e]),
    ensures
        blank_end(s, i) == e,
    decreases e - i,
{
    if i < e {
        lemma_blank_span(s, i + 1, e);
    }
}

proof fn lemma_ident_span(s: Seq<char>, i: int, e: int)
    requires
        0 <= i <= e <= s.len(),
        forall|k: int| i <= k < e ==> alphanumeric(#[trigger] s[k]) || s[k] == '_',
        e == s.len() || !(alphanumeric(s[e]) || s[e] == '_'),
    ensures
        ident_end(s, i) == e,
    decreases e - i,
{
    if i < e {
        lemma_ident_span(s, i + 1, e);
    }
}

/// A let-binding head lexes whatever blanks stand between its parts, none
/// included between the name and `=`: `let` + `w1` + `x` + `w2` + `=` gives
/// `let`, the name `x` and `=`, and nothing else, leaving the string table as
/// it is. The name is a run of identifier characters; this rests on blanks
/// and `=` not being identifier characters, which std documents of
/// `char::is_alphanumeric` (`blanks_are_not_identifier_chars` and
/// `is_ident_char('=')` test it).
pub proof fn let_binding_lexes_with_any_blanks(w1: Seq<char>, x: Seq<char>, w2: Seq<char>, t: Seq<Seq<char>>)
    requires
        all_blank(w1),
        all_blank(w2),
        x.len() > 0,
        forall|k: int| 0 <= k < x.len() ==> alphanumeric(#[trigger] x[k]) || x[k] == '_',
        blanks_end_identifiers(),
        !alphanumeric('='),
    ensures
        lex(seq!['l', 'e', 't'] + w1 + x + w2 + seq!['='], t)
            == (Lexed { tokens: seq![SpecToken::Let, SpecToken::Ident(x), SpecToken::Equals], table: t, error_at: None }),
{
    let s = seq!['l', 'e', 't'] + w1 + x + w2 + seq!['='];
    let a: int = 3 + w1.len() as int;
    let e: int = a + x.len();
    let m: int = e + w2.len();
    assert(s.len() == m + 1);
    assert forall|k: int| 3 <= k < a implies is_blank(#[trigger] s[k]) by {
        assert(s[k] == w1[k - 3]);
    }
    assert forall|k: int| a <= k < e implies alphanumeric(#[trigger] s[k]) || s[k] == '_' by {
        assert(s[k] == x[k - a]);
    }
    assert forall|k: int| e <= k < m implies is_blank(#[trigger] s[k]) by {
        assert(s[k] == w2[k - e]);
    }
    assert(s[m] == '=');
    assert(s[a] == x[0]);
    assert(!is_blank(s[a])) by {
        if is_blank(s[a]) {
            assert(!alphanumeric(s[a]));
        }
    }
    assert(!(alphanumeric(s[e]) || s[e] == '_')) by {
        if e < m {
            assert(s[e] == w2[0]);
            assert(is_blank(s[e]));
        }
    }
    lemma_blank_span(s, 3, a);
    lemma_ident_span(s, a, e);
    lemma_blank_span(s, e, m);
    assert(s[0] == 'l' && s[1] == 'e' && s[2] == 't');
    assert(blank_end(s, 0) == 0);
    lemma_keyword_lengths();
    assert(!text_at(s, 0, kw_fn())) by {
        if text_at(s, 0, kw_fn()) {
            assert(s.subrange(0, 2)[0] == s[0]);
        }
    }
    assert(!text_at(s, 0, kw_enum())) by {
        if text_at(s, 0, kw_enum()) {
            assert(s.subrange(0, 4)[0] == s[0]);
        }
    }
    assert(!text_at(s, 0, kw_struct())) by {
        if text_at(s, 0, kw_struct()) {
            assert(s.subrange(0, 6)[0] == s[0]);
        }
    }
    assert(text_at(s, 0, kw_let())) by {
        assert(s.subrange(0, 3) =~= kw_let());
    }
    assert(s.subrange(a, e) =~= x);
    assert(lex_let(s, 0) == Some((seq![SpecToken::Let, SpecToken::Ident(x), SpecToken::Equals], m + 1)));
    assert(blank_end(s, m + 1) == m + 1);
    assert(lex_from(s, m + 1, t) == (Lexed { tokens: Seq::<SpecToken>::empty(), table: t, error_at: None }));
    assert(seq![SpecToken::Let, SpecToken::Ident(x), SpecToken::Equals] + Seq::<SpecToken>::empty()
        =~= seq![SpecToken::Let, SpecToken::Ident(x), SpecToken::Equals]);
}


/// The token that a character stands for on its own, if any.
pub open spec fn one_char_token(c: char) -> Option<SpecToken> {
    if c == ',' { Some(SpecToken::Comma) }
    else if c == ':' { Some(SpecToken::Colon) }
    else if c == ';' { Some(SpecToken::SemiColon) }
    else if c == '\'' { Some(SpecToken::Apostrophe) }
    else if c == '(' { Some(SpecToken::LParen) }
    else if c == ')' { Some(SpecToken::RParen) }
    else if c == '{' { Some(SpecToken::LBrace) }
    else if c == '}' { Some(SpecToken::RBrace) }
    else if c == '[' { Some(SpecToken::LBracket) }
    else if c == ']' { Some(SpecToken::RBracket) }
    else if c == '!' { Some(SpecToken::Not) }
    else if c == '+' { Some(SpecToken::Plus) }
    else if c == '-' { Some(SpecToken::Minus) }
    else if c == '*' { Some(SpecToken::Multiply) }
    else if c == '/' { Some(SpecToken::Divide) }
    else if c == '%' { Some(SpecToken::Modulo) }
    else if c == '<' { Some(SpecToken::Less) }
    else if c == '>' { Some(SpecToken::Greater) }
    else if c == '?' { Some(SpecToken::QuestionMark) }
    else { None }
}

/// A punctuation, bracket or operator character that is a token on its own
/// is lexed alone, whatever follows (so `::` is two colons), the one exception
/// being `-` before `>`, which is an arrow: the text lexes to that token and
/// then to what the rest of the text lexes to.
pub proof fn one_char_tokens_stand_alone(c: char, rest: Seq<char>, t: Seq<Seq<char>>)
    requires
        one_char_token(c) is Some,
        !(c == '-' && rest.len() > 0 && rest[0] == '>'),
    ensures
        lex(seq![c] + rest, t).tokens == seq![one_char_token(c)->0] + lex(rest, t).tokens,
        lex(seq![c] + rest, t).table == lex(rest, t).table,
        (lex(seq![c] + rest, t).error_at is None) == (lex(rest, t).error_at is None),
{
    let s = seq![c] + rest;
    assert(s[0] == c);
    assert(rest.len() > 0 ==> s[1] == rest[0]);
    assert(!is_blank(c));
    assert(blank_end(s, 0) == 0);
    lemma_keyword_lengths();
    assert(kw_fn()[0] == 'f' && kw_enum()[0] == 'e' && kw_struct()[0] == 's' && kw_let()[0] == 'l' && kw_return()[0] == 'r');
    assert forall|kw: Seq<char>| kw.len() > 0 && kw[0] != c implies !text_at(s, 0, kw) by {
        if text_at(s, 0, kw) {
            assert(s.subrange(0, kw.len() as int)[0] == s[0]);
        }
    }
    lemma_run_bounds(s);
    assert(digit_end(s, 0) == 0);
    let tk = one_char_token(c)->0;
    assert(lex_token(s, 0, t) == Some((seq![tk], 1int, t))) by {
        assert(lex_fn_def(s, 0) is None);
        assert(lex_fn(s, 0) is None);
        assert(lex_enum_def(s, 0) is None);
        assert(lex_struct_def(s, 0) is None);
        assert(lex_let(s, 0) is None);
        assert(lex_float(s, 0) is None);
        assert(lex_integer(s, 0) is None);
        assert(lex_string(s, 0, t) is None);
    }
    lemma_shift_from(seq![c], rest, 1, t);
    assert(seq![c].len() == 1);
}

} // verus!
